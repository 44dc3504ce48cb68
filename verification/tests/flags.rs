use minesweeper::game::{CellState, GameState, Minesweeper};

fn board() -> Minesweeper {
    Minesweeper::with_mines(4, 4, &vec![(0, 0), (3, 3)]).unwrap()
}

#[test]
fn flag_takes_one_off_the_counter() {
    let mut game = Minesweeper::new(16, 16, 40);
    game.handle_right_click(4, 9);
    assert_eq!(game.board[4][9].state, CellState::Flagged);
    assert_eq!(game.mines_left, 39);
    game.handle_right_click(0, 0);
    assert_eq!(game.mines_left, 38);
    assert_eq!(game.game_state, GameState::Playing);
    assert_eq!(game.mines, 40);
}

#[test]
fn taking_the_flag_away_restores_the_counter() {
    let mut game = board();
    game.handle_right_click(1, 2);
    assert_eq!(game.mines_left, 1);
    game.handle_right_click(1, 2);
    assert_eq!(game.board[1][2].state, CellState::Covered);
    assert_eq!(game.mines_left, 2);
    for x in 0..4 {
        for y in 0..4 {
            assert_eq!(game.board[x][y].state, CellState::Covered);
        }
    }
}

#[test]
fn flag_on_a_revealed_cell_does_nothing() {
    let mut game = board();
    game.handle_left_click(1, 1);
    assert_eq!(game.board[1][1].state, CellState::Revealed);
    game.handle_right_click(1, 1);
    assert_eq!(game.board[1][1].state, CellState::Revealed);
    assert_eq!(game.mines_left, 2);
    game.toggle_flag(1, 1);
    assert_eq!(game.board[1][1].state, CellState::Revealed);
    assert_eq!(game.mines_left, 2);
}

#[test]
fn counter_goes_below_zero() {
    let mut game = board();
    game.handle_right_click(0, 1);
    game.handle_right_click(0, 2);
    game.handle_right_click(0, 3);
    assert_eq!(game.mines_left, -1);
    game.handle_right_click(1, 3);
    assert_eq!(game.mines_left, -2);
    game.handle_right_click(0, 2);
    assert_eq!(game.mines_left, -1);
}

#[test]
fn flags_change_neither_mines_nor_numbers() {
    let mut game = board();
    let before: Vec<Vec<(bool, u8)>> = game
        .board
        .iter()
        .map(|col| col.iter().map(|c| (c.has_mine, c.adjacent_mines)).collect())
        .collect();
    game.toggle_flag(0, 0);
    game.toggle_flag(2, 2);
    game.toggle_flag(2, 2);
    let after: Vec<Vec<(bool, u8)>> = game
        .board
        .iter()
        .map(|col| col.iter().map(|c| (c.has_mine, c.adjacent_mines)).collect())
        .collect();
    assert_eq!(before, after);
    assert_eq!(game.mines_left, 1);
    assert!(game.start_time.is_none());
}

#[test]
fn flags_can_be_set_once_the_round_is_over() {
    let mut game = board();
    game.handle_left_click(0, 0);
    assert_eq!(game.game_state, GameState::Lost);
    game.handle_right_click(2, 2);
    assert_eq!(game.board[2][2].state, CellState::Flagged);
    assert_eq!(game.mines_left, 1);
    assert_eq!(game.game_state, GameState::Lost);
}
