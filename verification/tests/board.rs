use minesweeper::{Cell, GameBoard, GameState, COLS, MINES, ROWS};

fn cell_at(board: &GameBoard, row: usize, col: usize) -> Cell {
    board.cell(row, col).expect("position on the grid")
}

fn count_mines(board: &GameBoard) -> usize {
    let mut count = 0;
    for row in 0..board.rows() {
        for col in 0..board.cols() {
            if cell_at(board, row, col).is_mine {
                count += 1;
            }
        }
    }
    count
}

fn count_revealed(board: &GameBoard) -> usize {
    let mut count = 0;
    for row in 0..board.rows() {
        for col in 0..board.cols() {
            if cell_at(board, row, col).is_revealed {
                count += 1;
            }
        }
    }
    count
}

/// The mines around a cell, counted the slow way.
fn mines_around(board: &GameBoard, row: usize, col: usize) -> u8 {
    let mut count = 0;
    for dr in -1i64..=1 {
        for dc in -1i64..=1 {
            if dr == 0 && dc == 0 {
                continue;
            }
            let r = row as i64 + dr;
            let c = col as i64 + dc;
            if r < 0 || c < 0 {
                continue;
            }
            if let Some(cell) = board.cell(r as usize, c as usize) {
                if cell.is_mine {
                    count += 1;
                }
            }
        }
    }
    count
}

fn fifteen_mines() -> Vec<(usize, usize)> {
    vec![
        (0, 0),
        (1, 1),
        (2, 2),
        (3, 3),
        (4, 4),
        (5, 5),
        (6, 6),
        (7, 7),
        (8, 8),
        (9, 9),
        (0, 9),
        (9, 0),
        (2, 7),
        (7, 2),
        (4, 5),
    ]
}

fn small_board() -> GameBoard {
    GameBoard::with_mines(3, 4, &[(0, 0), (0, 1), (2, 3)]).expect("a valid layout")
}

#[test]
fn blank_cell() {
    let cell = Cell::new();
    assert!(!cell.is_mine);
    assert!(!cell.is_revealed);
    assert!(!cell.is_flagged);
    assert_eq!(cell.adjacent_mines, 0);
}

#[test]
fn standard_board_has_its_size_and_mines() {
    let board = GameBoard::new();
    assert_eq!(board.rows(), ROWS);
    assert_eq!(board.cols(), COLS);
    assert_eq!(board.mine_count(), MINES);
    assert_eq!((ROWS, COLS, MINES), (10, 10, 15));
    assert_eq!(count_mines(&board), 15);
    assert_eq!(count_revealed(&board), 0);
    assert!(!board.game_over());
    assert_eq!(board.state(), GameState::Playing);
    assert!(!board.is_won());
}

#[test]
fn random_boards_hold_exactly_their_mines() {
    for (rows, cols, mines) in [(1, 1, 0), (1, 2, 1), (5, 1, 4), (4, 7, 27), (16, 30, 99), (3, 3, 0)] {
        let board = GameBoard::with_size(rows, cols, mines);
        assert_eq!(board.rows(), rows);
        assert_eq!(board.cols(), cols);
        assert_eq!(board.mine_count(), mines);
        assert_eq!(count_mines(&board), mines);
        assert!(mines < rows * cols);
        assert_eq!(board.state(), GameState::Playing);
    }
}

#[test]
fn random_boards_count_their_neighbours() {
    for _ in 0..20 {
        let board = GameBoard::with_size(9, 13, 30);
        for row in 0..9 {
            for col in 0..13 {
                let cell = cell_at(&board, row, col);
                assert!(!cell.is_revealed);
                assert!(!cell.is_flagged);
                if cell.is_mine {
                    assert_eq!(cell.adjacent_mines, 0);
                } else {
                    assert_eq!(cell.adjacent_mines, mines_around(&board, row, col));
                }
            }
        }
    }
}

#[test]
fn random_boards_differ() {
    let first = GameBoard::with_size(30, 30, 200);
    let mut differs = false;
    for _ in 0..5 {
        if GameBoard::with_size(30, 30, 200) != first {
            differs = true;
        }
    }
    assert!(differs);
}

#[test]
fn layout_is_taken_as_given() {
    let board = small_board();
    assert_eq!(board.rows(), 3);
    assert_eq!(board.cols(), 4);
    assert_eq!(board.mine_count(), 3);
    for row in 0..3 {
        for col in 0..4 {
            let mine = [(0, 0), (0, 1), (2, 3)].contains(&(row, col));
            assert_eq!(cell_at(&board, row, col).is_mine, mine);
        }
    }
    assert_eq!(board.state(), GameState::Playing);
}

#[test]
fn counts_of_a_known_layout() {
    let board = small_board();
    let expected: [[u8; 4]; 3] = [[0, 0, 1, 0], [2, 2, 2, 1], [0, 0, 1, 0]];
    for row in 0..3 {
        for col in 0..4 {
            assert_eq!(cell_at(&board, row, col).adjacent_mines, expected[row][col]);
        }
    }
}

#[test]
fn counts_at_corners_and_edges() {
    let board = GameBoard::with_mines(3, 3, &[(1, 1)]).expect("a valid layout");
    for row in 0..3 {
        for col in 0..3 {
            let expected = if (row, col) == (1, 1) { 0 } else { 1 };
            assert_eq!(cell_at(&board, row, col).adjacent_mines, expected);
        }
    }
    let ring = GameBoard::with_mines(3, 3, &[(0, 0), (0, 1), (0, 2), (1, 0), (1, 2), (2, 0), (2, 1), (2, 2)])
        .expect("a valid layout");
    assert_eq!(cell_at(&ring, 1, 1).adjacent_mines, 8);
    let line = GameBoard::with_mines(1, 5, &[(0, 0), (0, 4)]).expect("a valid layout");
    let counts: Vec<u8> = (0..5).map(|col| cell_at(&line, 0, col).adjacent_mines).collect();
    assert_eq!(counts, vec![0, 1, 0, 1, 0]);
}

#[test]
fn counting_again_changes_nothing() {
    let mut board = GameBoard::with_mines(10, 10, &fifteen_mines()).expect("a valid layout");
    let before = board.clone();
    board.calculate_adjacent_mines();
    assert_eq!(board, before);
}

#[test]
fn invalid_layouts_are_refused() {
    assert!(GameBoard::with_mines(3, 3, &[(3, 0)]).is_none());
    assert!(GameBoard::with_mines(3, 3, &[(0, 3)]).is_none());
    assert!(GameBoard::with_mines(3, 3, &[(1, 1), (0, 0), (1, 1)]).is_none());
    assert!(GameBoard::with_mines(1, 1, &[(0, 0)]).is_none());
    assert!(GameBoard::with_mines(0, 5, &[]).is_none());
    assert!(GameBoard::with_mines(5, 0, &[]).is_none());
    assert!(GameBoard::with_mines(2, 2, &[(0, 0), (0, 1), (1, 0), (1, 1)]).is_none());
    assert!(GameBoard::with_mines(2, 2, &[(0, 0), (0, 1), (1, 0)]).is_some());
    assert!(GameBoard::with_mines(1, 1, &[]).is_some());
}

#[test]
fn cell_off_the_grid_is_none() {
    let board = small_board();
    assert!(board.cell(3, 0).is_none());
    assert!(board.cell(0, 4).is_none());
    assert!(board.cell(usize::MAX, usize::MAX).is_none());
    assert!(board.cell(2, 3).is_some());
}

#[test]
fn reveal_of_a_numbered_cell_shows_it_alone() {
    let mut board = small_board();
    board.reveal_cell(1, 1);
    assert_eq!(count_revealed(&board), 1);
    assert!(cell_at(&board, 1, 1).is_revealed);
    assert_eq!(board.state(), GameState::Playing);
}

#[test]
fn reveal_of_a_zero_cell_spreads() {
    let mut board = small_board();
    board.reveal_cell(2, 0);
    let shown = [(1, 0), (1, 1), (1, 2), (2, 0), (2, 1), (2, 2)];
    for row in 0..3 {
        for col in 0..4 {
            assert_eq!(cell_at(&board, row, col).is_revealed, shown.contains(&(row, col)));
        }
    }
    assert_eq!(board.state(), GameState::Playing);
    assert_eq!(board.render(), ". . . . \n2 2 2 . \n0 0 1 . \n");
}

#[test]
fn reveal_twice_is_reveal_once() {
    for (row, col) in [(2, 0), (1, 1), (0, 0), (0, 3), (7, 7)] {
        let mut once = small_board();
        once.reveal_cell(row, col);
        let mut twice = once.clone();
        twice.reveal_cell(row, col);
        assert_eq!(twice, once);
    }
}

#[test]
fn reveal_of_a_mine_loses_without_spreading() {
    let mut board = GameBoard::with_mines(10, 10, &fifteen_mines()).expect("a valid layout");
    assert_eq!(count_mines(&board), 15);
    board.reveal_cell(4, 5);
    assert!(board.game_over());
    assert_eq!(board.state(), GameState::Lost);
    assert!(!board.is_won());
    assert_eq!(count_revealed(&board), 1);
    assert!(cell_at(&board, 4, 5).is_revealed);
    assert_eq!(cell_at(&board, 4, 5).symbol(), '*');
}

#[test]
fn nothing_happens_after_a_loss() {
    let mut board = GameBoard::with_mines(10, 10, &fifteen_mines()).expect("a valid layout");
    board.reveal_cell(0, 0);
    assert_eq!(board.state(), GameState::Lost);
    let lost = board.clone();
    board.reveal_cell(5, 0);
    board.toggle_flag(5, 0);
    board.reveal_cell(0, 0);
    board.toggle_flag(1, 1);
    assert_eq!(board, lost);
}

fn reveal_all_safe_cells(order: &[usize]) {
    let mines = fifteen_mines();
    let mut board = GameBoard::with_mines(10, 10, &mines).expect("a valid layout");
    let mut asked = 0;
    for &index in order {
        let (row, col) = (index / 10, index % 10);
        if mines.contains(&(row, col)) {
            continue;
        }
        assert_eq!(board.state(), GameState::Playing);
        board.reveal_cell(row, col);
        asked += 1;
        assert!(cell_at(&board, row, col).is_revealed);
        assert!(!board.game_over());
        if count_revealed(&board) == 85 {
            break;
        }
    }
    assert!(asked <= 85);
    assert_eq!(count_revealed(&board), 85);
    assert_eq!(board.state(), GameState::Won);
    assert!(board.is_won());
    assert!(!board.game_over());
    for &(row, col) in &mines {
        assert!(!cell_at(&board, row, col).is_revealed);
    }
    let won = board.clone();
    board.reveal_cell(0, 0);
    board.toggle_flag(0, 0);
    assert_eq!(board, won);
}

#[test]
fn revealing_every_safe_cell_wins_in_row_order() {
    let order: Vec<usize> = (0..100).collect();
    reveal_all_safe_cells(&order);
}

#[test]
fn revealing_every_safe_cell_wins_in_reverse_order() {
    let order: Vec<usize> = (0..100).rev().collect();
    reveal_all_safe_cells(&order);
}

#[test]
fn revealing_every_safe_cell_wins_in_scattered_order() {
    let order: Vec<usize> = (0..100).map(|k| (k * 37 + 11) % 100).collect();
    reveal_all_safe_cells(&order);
}

#[test]
fn single_mine_in_the_corner() {
    let mut board = GameBoard::with_mines(10, 10, &[(0, 0)]).expect("a valid layout");
    board.reveal_cell(9, 9);
    for row in 0..10 {
        for col in 0..10 {
            let cell = cell_at(&board, row, col);
            if (row, col) == (0, 0) {
                assert!(cell.is_mine);
                assert!(!cell.is_revealed);
            } else {
                assert!(cell.is_revealed);
                let next_to_mine = row <= 1 && col <= 1;
                assert_eq!(cell.adjacent_mines, if next_to_mine { 1 } else { 0 });
            }
        }
    }
    assert_eq!(count_revealed(&board), 99);
    assert!(!board.game_over());
    assert_eq!(board.state(), GameState::Won);
    let text = board.render();
    let lines: Vec<&str> = text.lines().collect();
    assert_eq!(lines.len(), 10);
    assert_eq!(lines[0], ". 1 0 0 0 0 0 0 0 0 ");
    assert_eq!(lines[1], "1 1 0 0 0 0 0 0 0 0 ");
    for line in &lines[2..] {
        assert_eq!(*line, "0 0 0 0 0 0 0 0 0 0 ");
    }
}

#[test]
fn flood_fill_stops_at_numbers_and_spares_mines() {
    let mines = [(0, 2), (1, 2), (2, 2), (2, 1), (2, 0), (5, 5)];
    let mut board = GameBoard::with_mines(6, 6, &mines).expect("a valid layout");
    board.reveal_cell(0, 0);
    let shown = [(0, 0), (0, 1), (1, 0), (1, 1)];
    for row in 0..6 {
        for col in 0..6 {
            assert_eq!(cell_at(&board, row, col).is_revealed, shown.contains(&(row, col)));
        }
    }
    assert_eq!(cell_at(&board, 0, 1).adjacent_mines, 2);
    assert_eq!(cell_at(&board, 1, 0).adjacent_mines, 2);
    assert_eq!(cell_at(&board, 1, 1).adjacent_mines, 5);
    assert!(!board.game_over());
    board.reveal_cell(0, 5);
    for row in 0..6 {
        for col in 0..6 {
            let cell = cell_at(&board, row, col);
            if cell.is_mine {
                assert!(!cell.is_revealed);
            }
            if cell.is_revealed && !cell.is_mine && cell.adjacent_mines == 0 {
                for (r, c) in [(row + 1, col), (row, col + 1), (row + 1, col + 1)] {
                    if let Some(next) = board.cell(r, c) {
                        assert!(next.is_revealed);
                    }
                }
            }
        }
    }
    assert!(cell_at(&board, 0, 3).is_revealed);
    assert!(cell_at(&board, 3, 0).is_revealed);
    assert!(cell_at(&board, 4, 4).is_revealed);
    assert_eq!(board.state(), GameState::Won);
}

#[test]
fn flag_flips_and_flips_back() {
    let mut board = small_board();
    let fresh = board.clone();
    board.toggle_flag(0, 0);
    assert!(cell_at(&board, 0, 0).is_flagged);
    assert!(!cell_at(&board, 0, 0).is_revealed);
    assert_eq!(count_revealed(&board), 0);
    assert_eq!(board.render(), "F . . . \n. . . . \n. . . . \n");
    assert_eq!(board.state(), GameState::Playing);
    board.toggle_flag(0, 0);
    assert_eq!(board, fresh);
}

#[test]
fn flag_on_a_revealed_cell_does_nothing() {
    let mut board = small_board();
    board.reveal_cell(1, 1);
    let before = board.clone();
    board.toggle_flag(1, 1);
    assert_eq!(board, before);
    assert!(!cell_at(&board, 1, 1).is_flagged);
}

#[test]
fn reveal_takes_the_flag_away() {
    let mut board = small_board();
    board.toggle_flag(1, 1);
    board.toggle_flag(2, 1);
    board.reveal_cell(2, 0);
    for row in 0..3 {
        for col in 0..4 {
            let cell = cell_at(&board, row, col);
            assert!(!(cell.is_flagged && cell.is_revealed));
        }
    }
    assert!(cell_at(&board, 1, 1).is_revealed);
    assert!(cell_at(&board, 2, 1).is_revealed);
    board.toggle_flag(0, 0);
    board.reveal_cell(0, 0);
    assert!(cell_at(&board, 0, 0).is_revealed);
    assert!(!cell_at(&board, 0, 0).is_flagged);
    assert_eq!(board.state(), GameState::Lost);
}

#[test]
fn off_the_grid_nothing_changes() {
    let mut board = small_board();
    board.toggle_flag(0, 2);
    board.reveal_cell(1, 3);
    let before = board.clone();
    for (row, col) in [(3, 0), (0, 4), (3, 4), (10, 10), (usize::MAX, 0), (0, usize::MAX), (usize::MAX, usize::MAX)] {
        board.reveal_cell(row, col);
        assert_eq!(board, before);
        board.toggle_flag(row, col);
        assert_eq!(board, before);
    }
}

#[test]
fn win_on_the_small_board() {
    let mut board = small_board();
    board.reveal_cell(2, 0);
    board.toggle_flag(0, 0);
    assert!(!board.is_won());
    board.reveal_cell(0, 3);
    assert_eq!(board.render(), "F . 1 0 \n2 2 2 1 \n0 0 1 . \n");
    assert!(board.is_won());
    assert_eq!(board.state(), GameState::Won);
    assert!(!board.game_over());
}

#[test]
fn render_of_a_lost_board() {
    let mut board = GameBoard::with_mines(2, 2, &[(0, 1)]).expect("a valid layout");
    board.toggle_flag(1, 1);
    board.reveal_cell(0, 0);
    board.reveal_cell(0, 1);
    assert_eq!(board.render(), "1 * \n. F \n");
}

#[test]
fn glyphs() {
    let hidden = Cell::new();
    assert_eq!(hidden.symbol(), '.');
    let flagged = Cell { is_flagged: true, ..hidden };
    assert_eq!(flagged.symbol(), 'F');
    let mine = Cell { is_mine: true, is_revealed: true, ..hidden };
    assert_eq!(mine.symbol(), '*');
    let hidden_mine = Cell { is_mine: true, ..hidden };
    assert_eq!(hidden_mine.symbol(), '.');
    for count in 0u8..=9 {
        let shown = Cell { is_revealed: true, adjacent_mines: count, ..hidden };
        assert_eq!(shown.symbol(), char::from_digit(count as u32, 10).unwrap());
    }
    let odd = Cell { is_revealed: true, adjacent_mines: 10, ..hidden };
    assert_eq!(odd.symbol(), '0');
    let odd = Cell { is_revealed: true, adjacent_mines: 255, ..hidden };
    assert_eq!(odd.symbol(), '0');
}
