use minimax_engine::game::{Game, GameState};
use minimax_engine::game_elements::{BoardCell, GameStatus, Player};
use minimax_engine::go::{GoTieCondition, GoTransitionFunction, GoValidMoves, GoWinCondition};
use minimax_engine::push_up_four::PushUpFourSpec;
use minimax_engine::pushupfour::{
    is_col_win, is_diag_win, is_row_win, is_sequence_win, is_tie_after_transition, is_win,
    PushUpFourTieCondition, PushUpFourTransitionFunction, PushUpFourValidMoves,
    PushUpFourWinCondition,
};
use minimax_engine::user_game::UserGameSpec;

const P0: BoardCell = Some(Player::Player0);
const P1: BoardCell = Some(Player::Player1);
const E: BoardCell = None;

#[test]
fn sequence_win_counts_matches() {
    assert!(is_sequence_win(&vec![P0, P0, P0, P0], Player::Player0, 4));
    assert!(!is_sequence_win(&vec![P0, P1, P0, P0], Player::Player0, 4));
    assert!(is_sequence_win(&vec![P0, P1, P0, P0], Player::Player0, 3));
    assert!(!is_sequence_win(&vec![], Player::Player0, 1));
}

#[test]
fn row_win_is_found() {
    let board = vec![
        vec![E, E, E, E, E],
        vec![E, P0, P0, P0, P0],
        vec![E, E, E, E, E],
    ];
    assert!(is_row_win(&board, Player::Player0, 4));
    assert!(!is_row_win(&board, Player::Player1, 4));
    assert!(!is_row_win(&board, Player::Player0, 5));
}

#[test]
fn col_win_is_found() {
    let board = vec![
        vec![E, P1, E],
        vec![E, P1, E],
        vec![E, P1, E],
        vec![P0, P1, E],
    ];
    assert!(is_col_win(&board, Player::Player1, 4));
    assert!(!is_col_win(&board, Player::Player0, 2));
}

#[test]
fn diag_win_is_found_both_ways() {
    let falling = vec![
        vec![P0, E, E],
        vec![E, P0, E],
        vec![E, E, P0],
    ];
    assert!(is_diag_win(&falling, Player::Player0, 3));
    let rising = vec![
        vec![E, E, P1],
        vec![E, P1, E],
        vec![P1, E, E],
    ];
    assert!(is_diag_win(&rising, Player::Player1, 3));
    assert!(!is_diag_win(&rising, Player::Player0, 2));
}

#[test]
fn line_win_combines_all_directions() {
    let board = vec![
        vec![P0, P0, P0],
        vec![E, E, E],
        vec![E, E, E],
    ];
    assert!(is_win(&board, Player::Player0, 3));
    assert!(!is_win(&board, Player::Player1, 1));
}

#[test]
fn simultaneous_wins_tie() {
    let board = vec![
        vec![P0, P0, P0],
        vec![P1, P1, P1],
    ];
    assert!(is_tie_after_transition(&board, 2, 3));
    let single = vec![
        vec![P0, P0, P0],
        vec![P1, P1, E],
    ];
    assert!(!is_tie_after_transition(&single, 2, 3));
}

#[test]
fn push_up_chip_shifts_the_column() {
    let rules = PushUpFourSpec { num_rows: 2, num_cols: 2, n_in_a_row: 2 };
    let mut game = Game::new(rules, 2);
    game.transition(1, 0);
    // The first chip sits at the bottom of its column.
    assert_eq!(*game.get_board(), vec![vec![E, E], vec![P0, E]]);
    game.transition(1, 0);
    // The second chip enters at the bottom and pushes the first one up.
    assert_eq!(*game.get_board(), vec![vec![P0, E], vec![P1, E]]);
    assert_eq!(game.get_move_num(), 2);
    assert_eq!(game.get_to_move(), Player::Player0);
}

#[test]
fn push_up_valid_moves_skip_full_columns() {
    let rules = PushUpFourSpec { num_rows: 2, num_cols: 3, n_in_a_row: 3 };
    let mut game = Game::new(rules, 2);
    assert_eq!(game.get_valid_moves(), vec![(1, 0), (1, 1), (1, 2)]);
    game.transition(1, 1);
    game.transition(1, 1);
    // Column 1 is full now.
    assert_eq!(game.get_valid_moves(), vec![(1, 0), (1, 2)]);
}

#[test]
fn user_game_is_six_by_seven() {
    let game = Game::new(UserGameSpec, 2);
    assert_eq!(game.get_board().len(), 6);
    assert!(game.get_board().iter().all(|row| row.len() == 7));
    assert_eq!(game.get_to_move(), Player::Player0);
    assert_eq!(game.get_move_num(), 0);
    assert_eq!(game.get_valid_moves().len(), 7);
}

#[test]
fn user_game_vertical_win() {
    let mut game = Game::new(UserGameSpec, 2);
    // Player 0 stacks column 0, player 1 stacks column 1.
    for _ in 0..3 {
        game.transition(5, 0);
        game.transition(5, 1);
    }
    assert_eq!(game.get_game_status(), GameStatus::Ongoing);
    game.transition(5, 0);
    assert_eq!(game.get_game_status(), GameStatus::Player0Win);
}

#[test]
fn capability_structs_agree_with_the_rules_object() {
    let vm = PushUpFourValidMoves;
    let board = vec![vec![P0, E], vec![P0, P1]];
    assert_eq!(vm.get_valid_moves(&board), vec![(1, 1)]);

    let tf = PushUpFourTransitionFunction;
    let state = GameState::new(Player::Player1, 2, vec![vec![E, E], vec![P0, E]]);
    let next = tf.transition(&state, 2, 0);
    assert_eq!(*next.get_board(), vec![vec![P0, E], vec![P1, E]]);
    assert_eq!(next.get_move_num(), 3);
    assert_eq!(next.get_to_move(), Player::Player0);

    let wc = PushUpFourWinCondition;
    assert!(wc.is_win(&vec![vec![P1, P1]], Player::Player1, 2));

    let tc = PushUpFourTieCondition;
    assert!(tc.is_tie(&vec![vec![P0, P1]], 2, 2, 2));
    assert!(!tc.is_tie(&vec![vec![P0, E]], 1, 2, 2));
}

#[test]
fn go_valid_moves_are_the_empty_cells() {
    let vm = GoValidMoves;
    let board = vec![vec![E, P0], vec![E, E]];
    assert_eq!(vm.get_valid_moves(&board), vec![(0, 0), (1, 0), (1, 1)]);
}

#[test]
fn go_capture_removes_a_surrounded_stone() {
    let tf = GoTransitionFunction;
    // A lone stone of player 1 in the corner, its single liberty taken by
    // player 0's move: the stone is captured and removed.
    let state = GameState::new(Player::Player0, 1, vec![vec![P1, E]]);
    let next = tf.transition(&state, 2, 0, 1);
    assert_eq!(*next.get_board(), vec![vec![E, P0]]);
    assert_eq!(next.get_move_num(), 2);
    assert_eq!(next.get_to_move(), Player::Player1);
}

#[test]
fn go_capture_removes_a_whole_group() {
    let tf = GoTransitionFunction;
    // Two connected stones of player 1 share their last liberty; taking it
    // captures the whole group at once.
    let state = GameState::new(Player::Player0, 2, vec![vec![P1, P1, E]]);
    let next = tf.transition(&state, 2, 0, 2);
    assert_eq!(*next.get_board(), vec![vec![E, E, P0]]);
}

#[test]
fn go_stone_with_a_liberty_survives() {
    let tf = GoTransitionFunction;
    // The same stone on a wider board keeps a liberty and stays.
    let state = GameState::new(Player::Player0, 1, vec![vec![E, P1, E]]);
    let next = tf.transition(&state, 2, 0, 0);
    assert_eq!(*next.get_board(), vec![vec![P0, P1, E]]);
}

#[test]
fn go_win_and_tie_are_placeholders() {
    let state = GameState::new(Player::Player0, 0, vec![vec![E]]);
    assert!(!GoWinCondition.is_win(&state, Player::Player0));
    assert!(!GoTieCondition.is_tie(&state));
}

#[test]
fn othello_initial_board_and_moves() {
    let spec = minimax_engine::othello::OthelloSpec;
    let board = spec.get_initial_board();
    assert_eq!(board.len(), 8);
    assert!(board.iter().all(|row| row.len() == 8));
    assert_eq!(board[3][3], P0);
    assert_eq!(board[4][4], P0);
    assert_eq!(board[3][4], P1);
    assert_eq!(board[4][3], P1);
    assert_eq!(spec.get_player_disc_count(&board, Player::Player0), 2);
    assert_eq!(spec.get_player_disc_count(&board, Player::Player1), 2);
    // The four classic opening moves, row by row.
    assert_eq!(
        spec.get_valid_moves(&board, Player::Player0),
        vec![(2, 4), (3, 5), (4, 2), (5, 3)]
    );
    assert!(minimax_engine::othello::OthelloSpec::is_valid_move(
        &board,
        2,
        4,
        Player::Player0
    ));
    assert!(!minimax_engine::othello::OthelloSpec::is_valid_move(
        &board,
        0,
        0,
        Player::Player0
    ));
    // An occupied cell is never legal.
    assert!(!minimax_engine::othello::OthelloSpec::is_valid_move(
        &board,
        3,
        3,
        Player::Player1
    ));
}

#[test]
fn othello_transition_flips_the_enclosed_run() {
    let spec = minimax_engine::othello::OthelloSpec;
    let board = spec.get_initial_board();
    let state = GameState::new(Player::Player0, 0, board);
    let next = spec.transition(&state, 2, 2, 4);
    assert_eq!(next.get_to_move(), Player::Player1);
    assert_eq!(next.get_move_num(), 1);
    let nb = next.get_board();
    assert_eq!(nb[2][4], P0);
    assert_eq!(nb[3][4], P0); // flipped
    assert_eq!(nb[3][3], P0);
    assert_eq!(nb[4][3], P1); // untouched
    assert_eq!(spec.get_player_disc_count(nb, Player::Player0), 4);
    assert_eq!(spec.get_player_disc_count(nb, Player::Player1), 1);
}

#[test]
fn othello_win_and_tie_need_a_stuck_mover() {
    let spec = minimax_engine::othello::OthelloSpec;
    // A full board: nobody can move; player 0 holds more disks.
    let mut full = vec![vec![P0; 8]; 8];
    full[0][0] = P1;
    assert!(spec.is_win(&full, Player::Player1, Player::Player0));
    assert!(!spec.is_win(&full, Player::Player1, Player::Player1));
    assert!(!spec.is_tie(&full, Player::Player1));
    // Ongoing game: moves exist, so neither a win nor a tie.
    let board = spec.get_initial_board();
    assert!(!spec.is_win(&board, Player::Player0, Player::Player0));
    assert!(!spec.is_tie(&board, Player::Player0));
}
