use minesweeper::game::{CellState, GameState, Minesweeper};

fn win(game: &mut Minesweeper) {
    for x in 0..game.width {
        for y in 0..game.height {
            if !game.board[x][y].has_mine {
                game.handle_left_click(x, y);
            }
        }
    }
    assert_eq!(game.game_state, GameState::Won);
}

fn lose(game: &mut Minesweeper) {
    for x in 0..game.width {
        for y in 0..game.height {
            if game.board[x][y].has_mine && game.game_state == GameState::Playing {
                game.handle_left_click(x, y);
            }
        }
    }
    assert_eq!(game.game_state, GameState::Lost);
}

fn assert_new_round(game: &Minesweeper, mines: usize) {
    assert_eq!(game.game_state, GameState::Playing);
    assert_eq!(game.mines, mines);
    assert_eq!(game.mines_left, mines as i32);
    assert!(game.start_time.is_none());
    assert_eq!(game.elapsed_time, 0);
    let mut on_board = 0;
    for x in 0..game.width {
        assert_eq!(game.board[x].len(), game.height);
        for y in 0..game.height {
            assert_eq!(game.board[x][y].state, CellState::Covered);
            if game.board[x][y].has_mine {
                on_board += 1;
            }
        }
    }
    assert_eq!(on_board, mines);
}

#[test]
fn win_doubles_the_mines_and_raises_the_level() {
    let mut game = Minesweeper::new(16, 16, 40);
    win(&mut game);
    game.new_game();
    assert_eq!(game.level, 2);
    assert_new_round(&game, 80);
    assert_eq!(game.base_mines, 40);
    assert_eq!((game.width, game.height), (16, 16));
}

#[test]
fn mines_are_capped_nine_below_the_area() {
    let mut game = Minesweeper::new(16, 16, 40);
    win(&mut game);
    game.new_game();
    win(&mut game);
    game.new_game();
    assert_eq!(game.level, 3);
    assert_new_round(&game, 160);
    win(&mut game);
    game.new_game();
    assert_eq!(game.level, 4);
    assert_new_round(&game, 247);
    win(&mut game);
    game.new_game();
    assert_eq!(game.level, 5);
    assert_new_round(&game, 247);
}

#[test]
fn cap_on_a_small_board() {
    let mut game = Minesweeper::with_mines(4, 4, &vec![(0, 0), (1, 1), (2, 2), (3, 3)]).unwrap();
    win(&mut game);
    game.new_game();
    assert_eq!(game.level, 2);
    assert_new_round(&game, 7);
}

#[test]
fn cap_on_the_smallest_board() {
    let mut game = Minesweeper::new(3, 3, 5);
    game.new_game();
    assert_eq!(game.level, 1);
    assert_new_round(&game, 0);
    assert_eq!(game.base_mines, 5);
}

#[test]
fn loss_returns_to_level_one() {
    let mut game = Minesweeper::new(16, 16, 40);
    win(&mut game);
    game.new_game();
    win(&mut game);
    game.new_game();
    assert_eq!(game.level, 3);
    assert_eq!(game.mines, 160);
    lose(&mut game);
    game.new_game();
    assert_eq!(game.level, 1);
    assert_new_round(&game, 40);
}

#[test]
fn loss_at_level_one_keeps_the_mines() {
    let mut game = Minesweeper::new(9, 9, 10);
    lose(&mut game);
    game.new_game();
    assert_eq!(game.level, 1);
    assert_new_round(&game, 10);
}

#[test]
fn restart_in_play_keeps_level_and_mines() {
    let mut game = Minesweeper::new(16, 16, 40);
    win(&mut game);
    game.new_game();
    game.handle_right_click(3, 3);
    game.handle_right_click(4, 4);
    game.record_elapsed(12);
    assert_eq!(game.mines_left, 78);
    game.new_game();
    assert_eq!(game.level, 2);
    assert_new_round(&game, 80);
}

#[test]
fn new_round_lays_the_mines_anew() {
    let mut game = Minesweeper::new(16, 16, 40);
    let first: Vec<Vec<bool>> =
        game.board.iter().map(|col| col.iter().map(|c| c.has_mine).collect()).collect();
    let mut differs = false;
    for _ in 0..20 {
        game.new_game();
        assert_new_round(&game, 40);
        let next: Vec<Vec<bool>> =
            game.board.iter().map(|col| col.iter().map(|c| c.has_mine).collect()).collect();
        if next != first {
            differs = true;
        }
    }
    assert!(differs);
}
