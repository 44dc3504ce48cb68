use minesweeper::game::{Cell, CellState, GameState, Minesweeper};

fn mines_on(game: &Minesweeper) -> usize {
    let mut n = 0;
    for x in 0..game.width {
        for y in 0..game.height {
            if game.board[x][y].has_mine {
                n += 1;
            }
        }
    }
    n
}

fn mines_around(game: &Minesweeper, x: usize, y: usize) -> u8 {
    let mut n = 0;
    for dx in -1i64..=1 {
        for dy in -1i64..=1 {
            if dx == 0 && dy == 0 {
                continue;
            }
            let nx = x as i64 + dx;
            let ny = y as i64 + dy;
            if nx >= 0 && ny >= 0 && (nx as usize) < game.width && (ny as usize) < game.height {
                if game.board[nx as usize][ny as usize].has_mine {
                    n += 1;
                }
            }
        }
    }
    n
}

fn assert_fresh(game: &Minesweeper, width: usize, height: usize, mines: usize) {
    assert_eq!(game.width, width);
    assert_eq!(game.height, height);
    assert_eq!(game.board.len(), width);
    for x in 0..width {
        assert_eq!(game.board[x].len(), height);
        for y in 0..height {
            let cell = game.board[x][y];
            assert_eq!(cell.state, CellState::Covered);
            if !cell.has_mine {
                assert_eq!(cell.adjacent_mines, mines_around(game, x, y));
                assert_eq!(game.count_adjacent_mines(x, y), cell.adjacent_mines);
            }
        }
    }
    assert_eq!(mines_on(game), mines);
    assert_eq!(game.mines, mines);
    assert_eq!(game.mines_left, mines as i32);
    assert_eq!(game.game_state, GameState::Playing);
    assert!(game.start_time.is_none());
    assert_eq!(game.elapsed_time, 0);
}

fn layout(game: &Minesweeper) -> Vec<(usize, usize)> {
    let mut mines = Vec::new();
    for x in 0..game.width {
        for y in 0..game.height {
            if game.board[x][y].has_mine {
                mines.push((x, y));
            }
        }
    }
    mines
}

#[test]
fn new_cell_is_covered_and_empty() {
    let cell = Cell::new();
    assert!(!cell.has_mine);
    assert_eq!(cell.state, CellState::Covered);
    assert_eq!(cell.adjacent_mines, 0);
}

#[test]
fn standard_board_after_construction() {
    let game = Minesweeper::new(16, 16, 40);
    assert_eq!(game.mines_left, 40);
    assert_eq!(game.game_state, GameState::Playing);
    assert_eq!(game.level, 1);
    assert_eq!(game.base_mines, 40);
    for x in 0..16 {
        for y in 0..16 {
            assert_eq!(game.board[x][y].state, CellState::Covered);
        }
    }
    assert_fresh(&game, 16, 16, 40);
}

#[test]
fn generated_boards_hold_the_mines_asked_for() {
    let shapes = [
        (16usize, 16usize, 40usize),
        (9, 9, 10),
        (30, 16, 99),
        (3, 3, 8),
        (1, 1, 0),
        (1, 1, 1),
        (1, 7, 3),
        (7, 1, 3),
        (5, 3, 0),
        (0, 0, 0),
        (0, 5, 0),
    ];
    for &(width, height, mines) in shapes.iter() {
        for _ in 0..20 {
            let game = Minesweeper::new(width, height, mines);
            assert_fresh(&game, width, height, mines);
            assert_eq!(game.base_mines, mines);
            assert_eq!(game.level, 1);
        }
    }
}

#[test]
fn board_full_of_mines() {
    for _ in 0..20 {
        let game = Minesweeper::new(5, 3, 15);
        assert_fresh(&game, 5, 3, 15);
        for x in 0..5 {
            for y in 0..3 {
                assert!(game.board[x][y].has_mine);
            }
        }
    }
}

#[test]
fn nearly_full_board() {
    for _ in 0..20 {
        let game = Minesweeper::new(12, 12, 143);
        assert_fresh(&game, 12, 12, 143);
    }
}

#[test]
fn layouts_are_drawn_anew() {
    let first = layout(&Minesweeper::new(16, 16, 40));
    let mut differs = false;
    for _ in 0..20 {
        if layout(&Minesweeper::new(16, 16, 40)) != first {
            differs = true;
        }
    }
    assert!(differs);
}

#[test]
fn every_cell_can_get_a_mine() {
    let mut seen = [[false; 4]; 4];
    for _ in 0..400 {
        let game = Minesweeper::new(4, 4, 2);
        for x in 0..4 {
            for y in 0..4 {
                if game.board[x][y].has_mine {
                    seen[x][y] = true;
                }
            }
        }
    }
    for x in 0..4 {
        for y in 0..4 {
            assert!(seen[x][y]);
        }
    }
}

#[test]
fn layout_given_by_positions() {
    let game = Minesweeper::with_mines(3, 3, &vec![(1, 1)]).unwrap();
    assert_fresh(&game, 3, 3, 1);
    assert_eq!(game.base_mines, 1);
    assert_eq!(game.level, 1);
    assert!(game.board[1][1].has_mine);
    for x in 0..3 {
        for y in 0..3 {
            if (x, y) != (1, 1) {
                assert!(!game.board[x][y].has_mine);
                assert_eq!(game.board[x][y].adjacent_mines, 1);
            }
        }
    }
}

#[test]
fn numbers_count_the_mines_around() {
    let game = Minesweeper::with_mines(3, 3, &vec![(0, 0), (1, 0), (2, 0)]).unwrap();
    assert_eq!(game.board[0][1].adjacent_mines, 2);
    assert_eq!(game.board[1][1].adjacent_mines, 3);
    assert_eq!(game.board[2][1].adjacent_mines, 2);
    assert_eq!(game.board[0][2].adjacent_mines, 0);
    assert_eq!(game.board[1][2].adjacent_mines, 0);
    assert_eq!(game.board[2][2].adjacent_mines, 0);
    assert_eq!(game.count_adjacent_mines(1, 1), 3);
    assert_eq!(game.count_adjacent_mines(0, 0), 1);
    assert_eq!(game.count_adjacent_mines(1, 0), 2);
    assert_eq!(game.count_adjacent_mines(2, 2), 0);
}

#[test]
fn number_eight_in_the_middle_of_mines() {
    let ring = vec![(0, 0), (0, 1), (0, 2), (1, 0), (1, 2), (2, 0), (2, 1), (2, 2)];
    let game = Minesweeper::with_mines(3, 3, &ring).unwrap();
    assert_fresh(&game, 3, 3, 8);
    assert_eq!(game.board[1][1].adjacent_mines, 8);
}

#[test]
fn mines_off_the_edge_do_not_count() {
    let game = Minesweeper::with_mines(4, 1, &vec![(0, 0), (3, 0)]).unwrap();
    assert_eq!(game.board[1][0].adjacent_mines, 1);
    assert_eq!(game.board[2][0].adjacent_mines, 1);
    let game = Minesweeper::with_mines(1, 4, &vec![(0, 1)]).unwrap();
    assert_eq!(game.board[0][0].adjacent_mines, 1);
    assert_eq!(game.board[0][2].adjacent_mines, 1);
    assert_eq!(game.board[0][3].adjacent_mines, 0);
}

#[test]
fn layout_without_mines_and_without_cells() {
    let game = Minesweeper::with_mines(4, 2, &vec![]).unwrap();
    assert_fresh(&game, 4, 2, 0);
    let game = Minesweeper::with_mines(0, 0, &vec![]).unwrap();
    assert_fresh(&game, 0, 0, 0);
}

#[test]
fn layout_off_the_board_is_refused() {
    assert!(Minesweeper::with_mines(3, 3, &vec![(3, 0)]).is_none());
    assert!(Minesweeper::with_mines(3, 3, &vec![(0, 3)]).is_none());
    assert!(Minesweeper::with_mines(3, 3, &vec![(1, 1), (7, 7)]).is_none());
    assert!(Minesweeper::with_mines(0, 0, &vec![(0, 0)]).is_none());
}

#[test]
fn layout_with_a_position_twice_is_refused() {
    assert!(Minesweeper::with_mines(3, 3, &vec![(1, 1), (1, 1)]).is_none());
    assert!(Minesweeper::with_mines(3, 3, &vec![(0, 0), (1, 1), (2, 2), (0, 0)]).is_none());
    assert!(Minesweeper::with_mines(3, 3, &vec![(0, 1), (1, 0)]).is_some());
}

#[test]
fn layout_on_too_large_a_board_is_refused() {
    assert!(Minesweeper::with_mines(usize::MAX, 2, &vec![]).is_none());
    assert!(Minesweeper::with_mines(65536, 32768, &vec![]).is_none());
    assert!(Minesweeper::with_mines(2147483648, 1, &vec![]).is_none());
}

#[test]
fn nth_free_cell_goes_column_by_column() {
    let game = Minesweeper::with_mines(3, 3, &vec![(0, 0), (0, 1), (1, 1)]).unwrap();
    assert_eq!(game.find_nth_free(0), (0, 2));
    assert_eq!(game.find_nth_free(1), (1, 0));
    assert_eq!(game.find_nth_free(2), (1, 2));
    assert_eq!(game.find_nth_free(3), (2, 0));
    assert_eq!(game.find_nth_free(5), (2, 2));
    let empty = Minesweeper::with_mines(2, 2, &vec![]).unwrap();
    assert_eq!(empty.find_nth_free(0), (0, 0));
    assert_eq!(empty.find_nth_free(3), (1, 1));
}

#[test]
fn drawn_position_gets_a_mine_unless_it_has_one() {
    let mut game = Minesweeper::with_mines(3, 3, &vec![(1, 1)]).unwrap();
    assert!(!game.lay_if_free(1, 1));
    assert_eq!(layout(&game), vec![(1, 1)]);
    assert!(game.lay_if_free(0, 2));
    assert_eq!(layout(&game), vec![(0, 2), (1, 1)]);
    assert!(!game.lay_if_free(0, 2));
    assert!(game.lay_if_free(2, 0));
    assert_eq!(layout(&game), vec![(0, 2), (1, 1), (2, 0)]);
    assert_eq!(game.mines, 1);
    assert_eq!(game.mines_left, 1);
    assert_eq!(game.board[0][0].adjacent_mines, 1);
    for x in 0..3 {
        for y in 0..3 {
            assert_eq!(game.board[x][y].state, CellState::Covered);
        }
    }
}

#[test]
fn blank_board_is_filled_with_the_session_s_mines() {
    for _ in 0..20 {
        let mut game = Minesweeper::with_mines(6, 4, &vec![]).unwrap();
        game.mines = 7;
        game.mines_left = 7;
        game.generate_board();
        assert_fresh(&game, 6, 4, 7);
        assert_eq!(game.base_mines, 0);
        assert_eq!(game.level, 1);
    }
}
