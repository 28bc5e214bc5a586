use minimax_engine::eval::{
    ConstantEvaluationFunction, EvaluationFunction, RandomEvaluationFunction,
};
use minimax_engine::game::{Game, GameState};
use minimax_engine::game_elements::{GameStatus, Player, SCORE_UNIT};
use minimax_engine::opt::{minimax_move, minimax_move_unpruned};
use minimax_engine::scripted::ScriptedSpec;
use minimax_engine::user_game::UserGameSpec;

fn uniform(n: usize) -> Vec<u64> {
    vec![SCORE_UNIT / n as u64; n]
}

#[test]
fn score_vector_invariant_game_score() {
    for n in 1..=4usize {
        let game = Game::new(ScriptedSpec { num_cols: 5, win_cells: vec![], win_from_move: 0 }, n);
        let score = game.get_score();
        assert_eq!(score.len(), n);
        assert_eq!(score.iter().sum::<u64>(), SCORE_UNIT);
        assert!(score.iter().all(|&s| s <= SCORE_UNIT));
    }
}

#[test]
fn score_vector_invariant_random_eval() {
    for n in 1..=4usize {
        let eval = RandomEvaluationFunction::new(n);
        let game = Game::new(ScriptedSpec { num_cols: 5, win_cells: vec![], win_from_move: 0 }, n);
        for _ in 0..50 {
            let v = eval.evaluate(game.get_state());
            assert_eq!(v.len(), n);
            assert_eq!(v.iter().sum::<u64>(), SCORE_UNIT);
            assert!(v.iter().all(|&s| s <= SCORE_UNIT));
        }
    }
}

#[test]
fn score_vector_invariant_constant_eval() {
    let eval = ConstantEvaluationFunction::new(vec![840, 840, 840]);
    let game = Game::new(ScriptedSpec { num_cols: 5, win_cells: vec![], win_from_move: 0 }, 3);
    let v = eval.evaluate(game.get_state());
    assert_eq!(v, vec![840, 840, 840]);
}

#[test]
fn undo_is_exact_inverse_of_apply() {
    let mut game = Game::new(UserGameSpec, 2);
    game.transition(5, 3);
    game.transition(5, 4);
    let snapshot = GameState::new(
        game.get_to_move(),
        game.get_move_num(),
        game.get_board().clone(),
    );
    game.transition(5, 2);
    game.undo_transition();
    assert!(**game.get_state() == snapshot);
    // Two levels further down the chain.
    game.undo_transition();
    game.undo_transition();
    let initial = Game::new(UserGameSpec, 2);
    assert!(**game.get_state() == **initial.get_state());
}

#[test]
fn status_precedence_tie_wins_over_win() {
    // One column, player 0's stone on it wins; one placement also fills the
    // board, so the tie and the win test both fire: tie must take precedence.
    let rules = ScriptedSpec { num_cols: 1, win_cells: vec![(0, Player::Player0)], win_from_move: 0 };
    let mut game = Game::new(rules, 2);
    game.transition(0, 0);
    assert_eq!(game.is_tie(), true);
    assert_eq!(game.is_win(Player::Player0), true);
    assert_eq!(game.get_game_status(), GameStatus::Tie);
    assert_eq!(game.get_score(), uniform(2));
}

#[test]
fn win_order_first_player_index_wins() {
    // Both players hold a winning cell; the win test runs in increasing
    // player order, so player 0's win is the one reported.
    let rules = ScriptedSpec {
        num_cols: 3,
        win_cells: vec![(1, Player::Player1), (0, Player::Player0)],
        win_from_move: 0,
    };
    let state = GameState::new(
        Player::Player0,
        2,
        vec![vec![Some(Player::Player0), Some(Player::Player1), None]],
    );
    let game = Game { state: Box::new(state), rules, num_players: 2 };
    assert_eq!(game.get_game_status(), GameStatus::Player0Win);
    let score = game.get_score();
    assert_eq!(score, vec![SCORE_UNIT, 0]);
}

#[test]
fn pruning_never_changes_the_result() {
    // Two players over four columns; placing on the second column wins for
    // player 1, so player 0 must block it. With hand-picked terminal scores
    // the pruning break fires during the search, and the pruned and the
    // exhaustive search must still agree move for move.
    let rules = ScriptedSpec {
        num_cols: 4,
        win_cells: vec![(1, Player::Player1)],
        win_from_move: 0,
    };
    let eval = ConstantEvaluationFunction::new(vec![1260, 1260]);
    let mut game = Game::new(rules, 2);
    let (value, mv) = minimax_move(&mut game, &eval, 2);
    let (value_u, mv_u) = minimax_move_unpruned(&mut game, &eval, 2);
    assert_eq!(value, value_u);
    assert_eq!(mv, mv_u);
    // Blocking the winning column keeps the split even.
    assert_eq!(value, 1260);
    assert_eq!(mv, Some((0, 1)));
}

#[test]
fn search_is_deterministic_with_deterministic_inputs() {
    let rules = ScriptedSpec {
        num_cols: 4,
        win_cells: vec![(2, Player::Player0), (1, Player::Player1)],
        win_from_move: 0,
    };
    let eval = ConstantEvaluationFunction::new(vec![1260, 1260]);
    let mut game = Game::new(rules, 2);
    let first = minimax_move(&mut game, &eval, 3);
    let second = minimax_move(&mut game, &eval, 3);
    assert_eq!(first, second);
}

#[test]
fn best_move_on_empty_four_in_a_row_board() {
    // Four-in-a-row style game, 2 players, empty board, depth 1: a move
    // comes back, its value stays within the total, and one move into the
    // game nothing can have been decided yet.
    let mut game = Game::new(UserGameSpec, 2);
    let eval = RandomEvaluationFunction::new(2);
    let (value, mv) = minimax_move(&mut game, &eval, 1);
    assert!(value <= SCORE_UNIT);
    let (row, col) = mv.expect("an empty board offers moves");
    game.transition(row, col);
    assert_eq!(game.get_game_status(), GameStatus::Ongoing);
}

#[test]
fn filling_the_board_yields_a_tie_and_a_uniform_score() {
    // A board that fills up after rows * cols legal moves is tied, and the
    // tie splits the total evenly.
    let rules = minimax_engine::push_up_four::PushUpFourSpec {
        num_rows: 2,
        num_cols: 2,
        n_in_a_row: 3,
    };
    let mut game = Game::new(rules, 2);
    for _ in 0..4 {
        assert_eq!(game.get_game_status(), GameStatus::Ongoing);
        let moves = game.get_valid_moves();
        assert!(!moves.is_empty());
        let (r, c) = moves[0];
        game.transition(r, c);
    }
    assert_eq!(game.get_move_num(), 4);
    assert_eq!(game.get_game_status(), GameStatus::Tie);
    assert_eq!(game.get_score(), uniform(2));
}

#[test]
fn three_player_forced_win_is_found() {
    // Player 0 forces a win in exactly two moves: taking the first column
    // wins two plies later whatever the reply, and cannot win earlier.
    let rules = ScriptedSpec {
        num_cols: 3,
        win_cells: vec![(0, Player::Player0)],
        win_from_move: 2,
    };
    let eval = ConstantEvaluationFunction::new(vec![840, 840, 840]);
    let mut game = Game::new(rules, 3);
    let (value, mv) = minimax_move(&mut game, &eval, 2);
    assert_eq!(value, SCORE_UNIT);
    assert_eq!(mv, Some((0, 0)));
    // The win indeed needs the second ply: after the first move the game is
    // still ongoing.
    game.transition(0, 0);
    assert_eq!(game.get_game_status(), GameStatus::Ongoing);
    game.transition(0, 1);
    assert_eq!(game.get_game_status(), GameStatus::Player0Win);
}

#[test]
fn terminal_game_returns_score_and_no_move() {
    let rules = ScriptedSpec { num_cols: 1, win_cells: vec![], win_from_move: 0 };
    let mut game = Game::new(rules, 2);
    game.transition(0, 0);
    assert_eq!(game.get_game_status(), GameStatus::Tie);
    let eval = ConstantEvaluationFunction::new(vec![1260, 1260]);
    let (value, mv) = minimax_move(&mut game, &eval, 3);
    assert_eq!(mv, None);
    assert_eq!(value, 1260);
}

#[test]
fn depth_zero_evaluates_without_exploring() {
    let rules = ScriptedSpec { num_cols: 3, win_cells: vec![], win_from_move: 0 };
    let mut game = Game::new(rules, 2);
    let eval = ConstantEvaluationFunction::new(vec![2000, 520]);
    let (value, mv) = minimax_move(&mut game, &eval, 0);
    assert_eq!(mv, None);
    assert_eq!(value, 2000);
}

#[test]
fn ongoing_game_without_moves_scores_zero() {
    // A rules object may (incorrectly) report an ongoing game with no legal
    // move; the search returns a neutral zero score and no move.
    let rules = ScriptedSpec { num_cols: 1, win_cells: vec![], win_from_move: 0 };
    let state = GameState::new(Player::Player0, 0, vec![vec![Some(Player::Player1)]]);
    let mut game = Game { state: Box::new(state), rules, num_players: 2 };
    assert_eq!(game.get_game_status(), GameStatus::Ongoing);
    assert!(game.get_valid_moves().is_empty());
    let eval = ConstantEvaluationFunction::new(vec![1260, 1260]);
    let (value, mv) = minimax_move(&mut game, &eval, 2);
    assert_eq!(value, 0);
    assert_eq!(mv, None);
}
