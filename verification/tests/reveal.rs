use minesweeper::game::{CellState, GameState, Minesweeper};

/// Eight columns of four rows with a wall of mines in column 6: the cells
/// of columns 0 to 4 have no mine around them, column 5 is numbered, and
/// column 7 lies behind the wall.
fn walled() -> Minesweeper {
    Minesweeper::with_mines(8, 4, &vec![(6, 0), (6, 1), (6, 2), (6, 3)]).unwrap()
}

fn states(game: &Minesweeper) -> Vec<Vec<CellState>> {
    game.board.iter().map(|col| col.iter().map(|c| c.state).collect()).collect()
}

fn count_state(game: &Minesweeper, state: CellState) -> usize {
    game.board.iter().flatten().filter(|c| c.state == state).count()
}

#[test]
fn reveal_opens_region_of_twenty_and_its_border() {
    let mut game = walled();
    let open_cells = game
        .board
        .iter()
        .flatten()
        .filter(|c| !c.has_mine && c.adjacent_mines == 0)
        .count();
    assert_eq!(open_cells, 20);
    game.handle_left_click(0, 0);
    for x in 0..8 {
        for y in 0..4 {
            let cell = game.board[x][y];
            if x <= 4 {
                assert_eq!(cell.state, CellState::Revealed);
                assert_eq!(cell.adjacent_mines, 0);
            } else if x == 5 {
                assert_eq!(cell.state, CellState::Revealed);
                assert!(cell.adjacent_mines > 0);
            } else {
                assert_eq!(cell.state, CellState::Covered);
            }
        }
    }
    assert_eq!(game.board[5][0].adjacent_mines, 2);
    assert_eq!(game.board[5][1].adjacent_mines, 3);
    assert_eq!(count_state(&game, CellState::Revealed), 24);
    assert_eq!(game.game_state, GameState::Playing);
    assert_eq!(game.mines_left, 4);
    assert!(game.start_time.is_some());
}

#[test]
fn reveal_from_inside_the_region_opens_the_same_cells() {
    let mut from_corner = walled();
    from_corner.reveal_cell(0, 0);
    let mut from_inside = walled();
    from_inside.reveal_cell(3, 2);
    assert_eq!(states(&from_corner), states(&from_inside));
    assert!(from_inside.start_time.is_none());
}

#[test]
fn reveal_of_a_numbered_cell_opens_only_that_cell() {
    let mut game = walled();
    game.handle_left_click(5, 1);
    assert_eq!(game.board[5][1].state, CellState::Revealed);
    assert_eq!(count_state(&game, CellState::Revealed), 1);
    assert_eq!(game.game_state, GameState::Playing);
    game.handle_left_click(7, 3);
    assert_eq!(game.board[7][3].state, CellState::Revealed);
    assert_eq!(count_state(&game, CellState::Revealed), 2);
}

#[test]
fn reveal_never_opens_a_mine_on_the_way() {
    for _ in 0..50 {
        let mut game = Minesweeper::new(16, 16, 40);
        let before = states(&game);
        let mut start = None;
        for x in 0..16 {
            for y in 0..16 {
                if start.is_none() && !game.board[x][y].has_mine && game.board[x][y].adjacent_mines == 0 {
                    start = Some((x, y));
                }
            }
        }
        let Some((sx, sy)) = start else { continue };
        game.handle_left_click(sx, sy);
        assert_ne!(game.game_state, GameState::Lost);
        for x in 0..16 {
            for y in 0..16 {
                let cell = game.board[x][y];
                if cell.has_mine {
                    assert_eq!(cell.state, before[x][y]);
                }
                if cell.state == CellState::Revealed && !cell.has_mine && cell.adjacent_mines == 0 {
                    for nx in x.saturating_sub(1)..=(x + 1).min(15) {
                        for ny in y.saturating_sub(1)..=(y + 1).min(15) {
                            assert_eq!(game.board[nx][ny].state, CellState::Revealed);
                        }
                    }
                }
            }
        }
    }
}

#[test]
fn reveal_stops_at_flags() {
    let mut game = walled();
    for y in 0..4 {
        game.handle_right_click(2, y);
    }
    assert_eq!(game.mines_left, 0);
    game.handle_left_click(0, 0);
    for x in 0..8 {
        for y in 0..4 {
            let expected = if x <= 1 {
                CellState::Revealed
            } else if x == 2 {
                CellState::Flagged
            } else {
                CellState::Covered
            };
            assert_eq!(game.board[x][y].state, expected);
        }
    }
    assert_eq!(game.mines_left, 0);
    assert_eq!(game.game_state, GameState::Playing);
}

#[test]
fn reveal_of_a_flagged_cell_does_nothing() {
    let mut game = walled();
    game.handle_right_click(6, 2);
    let before = states(&game);
    game.handle_left_click(6, 2);
    assert_eq!(states(&game), before);
    assert_eq!(game.game_state, GameState::Playing);
    assert_eq!(game.mines_left, 3);
    game.handle_right_click(0, 0);
    game.reveal_cell(0, 0);
    assert_eq!(game.board[0][0].state, CellState::Flagged);
    assert_eq!(count_state(&game, CellState::Revealed), 0);
}

#[test]
fn reveal_of_a_revealed_cell_does_nothing() {
    let mut game = walled();
    game.handle_left_click(5, 0);
    let before = states(&game);
    game.handle_left_click(5, 0);
    assert_eq!(states(&game), before);
    assert_eq!(game.game_state, GameState::Playing);
}

#[test]
fn reveal_of_a_mine_loses_and_changes_nothing_else() {
    let mut game = walled();
    game.handle_left_click(7, 0);
    game.handle_right_click(7, 1);
    let before = states(&game);
    game.handle_left_click(6, 1);
    assert_eq!(game.game_state, GameState::Lost);
    for x in 0..8 {
        for y in 0..4 {
            if (x, y) == (6, 1) {
                assert_eq!(game.board[x][y].state, CellState::Revealed);
            } else {
                assert_eq!(game.board[x][y].state, before[x][y]);
            }
        }
    }
    assert_eq!(game.mines_left, 3);
    assert_eq!(game.mines, 4);
}

#[test]
fn first_reveal_on_a_mine_loses() {
    for _ in 0..20 {
        let mut game = Minesweeper::new(5, 3, 15);
        game.handle_left_click(2, 1);
        assert_eq!(game.game_state, GameState::Lost);
        assert_eq!(count_state(&game, CellState::Revealed), 1);
        assert_eq!(count_state(&game, CellState::Covered), 14);
    }
}

#[test]
fn win_when_only_the_mines_are_hidden() {
    let mut game = walled();
    game.handle_left_click(0, 0);
    assert_eq!(game.game_state, GameState::Playing);
    game.handle_left_click(7, 0);
    game.handle_left_click(7, 1);
    game.handle_left_click(7, 2);
    assert_eq!(game.game_state, GameState::Playing);
    assert_eq!(count_state(&game, CellState::Covered), 5);
    game.handle_left_click(7, 3);
    assert_eq!(game.game_state, GameState::Won);
    assert_eq!(count_state(&game, CellState::Covered), 4);
    for y in 0..4 {
        assert_eq!(game.board[6][y].state, CellState::Covered);
    }
}

#[test]
fn win_counts_flagged_cells_as_hidden() {
    let mut game = walled();
    for y in 0..4 {
        game.handle_right_click(6, y);
    }
    game.handle_right_click(7, 3);
    game.handle_left_click(0, 0);
    game.handle_left_click(7, 0);
    game.handle_left_click(7, 1);
    game.handle_left_click(7, 2);
    assert_eq!(game.game_state, GameState::Playing);
    assert_eq!(game.mines_left, -1);
    game.handle_right_click(7, 3);
    assert_eq!(game.game_state, GameState::Playing);
    game.handle_left_click(7, 3);
    assert_eq!(game.game_state, GameState::Won);
    assert_eq!(count_state(&game, CellState::Flagged), 4);
    assert_eq!(game.mines_left, 0);
}

#[test]
fn win_in_one_reveal() {
    let mut game = Minesweeper::with_mines(4, 4, &vec![(3, 3)]).unwrap();
    game.handle_left_click(0, 0);
    assert_eq!(game.game_state, GameState::Won);
    assert_eq!(count_state(&game, CellState::Revealed), 15);
    assert_eq!(game.board[3][3].state, CellState::Covered);
}

#[test]
fn win_on_a_board_without_mines() {
    let mut game = Minesweeper::new(6, 5, 0);
    game.handle_left_click(3, 3);
    assert_eq!(game.game_state, GameState::Won);
    assert_eq!(count_state(&game, CellState::Revealed), 30);
}

#[test]
fn random_boards_are_won_by_opening_every_safe_cell() {
    for _ in 0..20 {
        let mut game = Minesweeper::new(9, 9, 10);
        for x in 0..9 {
            for y in 0..9 {
                if !game.board[x][y].has_mine && game.board[x][y].state == CellState::Covered {
                    assert_eq!(game.game_state, GameState::Playing);
                    game.handle_left_click(x, y);
                }
            }
        }
        assert_eq!(game.game_state, GameState::Won);
        let hidden = 81 - count_state(&game, CellState::Revealed);
        assert_eq!(hidden, 10);
        for x in 0..9 {
            for y in 0..9 {
                let cell = game.board[x][y];
                assert_eq!(cell.state == CellState::Covered, cell.has_mine);
            }
        }
    }
}

#[test]
fn reveal_on_a_long_board_opens_every_cell() {
    let mut game = Minesweeper::with_mines(400, 300, &vec![]).unwrap();
    game.handle_left_click(200, 150);
    assert_eq!(count_state(&game, CellState::Revealed), 120000);
    assert_eq!(game.game_state, GameState::Won);
}

#[test]
fn reveal_in_a_won_round_keeps_the_win() {
    let mut game = Minesweeper::with_mines(4, 4, &vec![(3, 3)]).unwrap();
    game.handle_left_click(0, 0);
    assert_eq!(game.game_state, GameState::Won);
    game.handle_left_click(3, 3);
    assert_eq!(game.game_state, GameState::Won);
    assert_eq!(game.board[3][3].state, CellState::Revealed);
    assert_eq!(count_state(&game, CellState::Revealed), 16);
}

#[test]
fn reveal_in_a_lost_round_keeps_the_loss() {
    let mut game = walled();
    game.handle_left_click(6, 0);
    assert_eq!(game.game_state, GameState::Lost);
    game.handle_left_click(0, 0);
    assert_eq!(game.game_state, GameState::Lost);
    assert_eq!(count_state(&game, CellState::Revealed), 25);
    game.handle_left_click(7, 0);
    game.handle_left_click(7, 1);
    game.handle_left_click(7, 2);
    assert_eq!(32 - count_state(&game, CellState::Revealed), 4);
    assert_eq!(game.game_state, GameState::Lost);
    game.handle_left_click(7, 3);
    assert_eq!(game.game_state, GameState::Lost);
    game.handle_left_click(6, 1);
    assert_eq!(game.game_state, GameState::Lost);
    assert_eq!(game.board[6][1].state, CellState::Revealed);
}

#[test]
fn win_check_declares_a_win_when_only_mines_are_hidden() {
    let mut game = Minesweeper::with_mines(2, 1, &vec![(0, 0), (1, 0)]).unwrap();
    assert_eq!(game.game_state, GameState::Playing);
    game.check_win_condition();
    assert_eq!(game.game_state, GameState::Won);
    let mut game = walled();
    game.check_win_condition();
    assert_eq!(game.game_state, GameState::Playing);
    game.reveal_cell(0, 0);
    game.check_win_condition();
    assert_eq!(game.game_state, GameState::Playing);
    assert_eq!(game.mines_left, 4);
}
