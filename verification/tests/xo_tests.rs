use chess_engine::two_player_game::{Game, GameState, Player, Scored};
use chess_engine::xo_impl::{Square, Xo};

fn play(moves: &[usize]) -> Xo {
    let mut game = Xo::new_game();
    for m in moves {
        game.do_move(*m);
    }
    game
}

#[test]
fn a_new_game_offers_every_square() {
    let game = Xo::new_game();
    assert_eq!(game.possible_moves(), vec![0, 1, 2, 3, 4, 5, 6, 7, 8]);
    assert_eq!(game.current_player(), Player::PLAYER1);
    assert_eq!(game.game_state(), GameState::PLAYING);
    assert_eq!(game.get_score(), 0);
}

#[test]
fn moves_alternate_and_can_be_taken_back() {
    let mut game = play(&[4, 0]);
    assert_eq!(game.state[4], Square::X);
    assert_eq!(game.state[0], Square::O);
    assert_eq!(game.current_player(), Player::PLAYER1);
    assert_eq!(game.possible_moves(), vec![1, 2, 3, 5, 6, 7, 8]);
    assert_eq!(game.undo_move(), 0);
    assert_eq!(game.state[0], Square::E);
    assert_eq!(game.current_player(), Player::PLAYER2);
    assert_eq!(game.undo_move(), 4);
    assert_eq!(game.possible_moves().len(), 9);
    game.do_move(8);
    game.setup_new_game();
    assert_eq!(game.possible_moves().len(), 9);
    assert_eq!(game.current_player(), Player::PLAYER1);
}

#[test]
fn lines_win() {
    // Cross takes the top row.
    let game = play(&[0, 3, 1, 4, 2]);
    assert_eq!(game.game_state(), GameState::PLAYER1WIN);
    assert_eq!(game.get_score(), 1);
    // Nought takes the middle column.
    let game = play(&[0, 1, 2, 4, 3, 7]);
    assert_eq!(game.game_state(), GameState::PLAYER2WIN);
    assert_eq!(game.get_score(), -1);
    // Cross takes the main diagonal, then the other one.
    assert_eq!(play(&[0, 1, 4, 2, 8]).game_state(), GameState::PLAYER1WIN);
    assert_eq!(play(&[2, 1, 4, 0, 6]).game_state(), GameState::PLAYER1WIN);
    // Cross takes the bottom row.
    assert_eq!(play(&[6, 0, 7, 1, 8]).game_state(), GameState::PLAYER1WIN);
}

#[test]
fn a_full_board_without_a_line_is_a_tie() {
    let game = play(&[0, 1, 2, 4, 3, 5, 7, 6, 8]);
    assert_eq!(game.possible_moves(), Vec::<usize>::new());
    assert_eq!(game.game_state(), GameState::TIE);
    assert_eq!(game.get_score(), 0);
}
