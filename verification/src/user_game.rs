//! The game shipped to the host UI: push-up-four on a fixed board.
//!
//! The rules are those of [`crate::push_up_four::PushUpFourSpec`] with the
//! board size and line length fixed at construction of this module's rules
//! object.

use vstd::prelude::*;

use crate::game::{Game, GameState, Position};
use crate::game_elements::{BoardCell, Player};
use crate::game_spec::GameSpec;
use crate::push_up_four::PushUpFourSpec;

verus! {

pub const NUM_ROWS: usize = 6;

pub const NUM_COLS: usize = 7;

pub const N_IN_A_ROW: usize = 4;

/// The fixed-size push-up-four rules object.
pub struct UserGameSpec;

impl UserGameSpec {
    /// The parameterized rules this fixed game plays by.
    pub open spec fn base(&self) -> PushUpFourSpec {
        PushUpFourSpec { num_rows: NUM_ROWS, num_cols: NUM_COLS, n_in_a_row: N_IN_A_ROW }
    }

    fn base_exec(&self) -> (r: PushUpFourSpec)
        ensures
            r == self.base(),
    {
        PushUpFourSpec { num_rows: NUM_ROWS, num_cols: NUM_COLS, n_in_a_row: N_IN_A_ROW }
    }
}

impl GameSpec for UserGameSpec {
    open spec fn wf(&self) -> bool {
        true
    }

    open spec fn inv(&self, pos: Position) -> bool {
        self.base().inv(pos)
    }

    open spec fn spec_initial_board(&self) -> Seq<Seq<BoardCell>> {
        self.base().spec_initial_board()
    }

    open spec fn spec_initial_to_move(&self) -> Player {
        self.base().spec_initial_to_move()
    }

    open spec fn spec_valid_moves(&self, pos: Position, num_players: int) -> Seq<(usize, usize)> {
        self.base().spec_valid_moves(pos, num_players)
    }

    open spec fn spec_transition(&self, pos: Position, num_players: int, mv: (usize, usize)) -> Position {
        self.base().spec_transition(pos, num_players, mv)
    }

    open spec fn spec_is_win(
        &self,
        pos: Position,
        hist: Seq<Position>,
        num_players: int,
        player: Player,
    ) -> bool {
        self.base().spec_is_win(pos, hist, num_players, player)
    }

    open spec fn spec_is_tie(&self, pos: Position, hist: Seq<Position>, num_players: int) -> bool {
        self.base().spec_is_tie(pos, hist, num_players)
    }

    proof fn lemma_initial(&self, num_players: int) {
        self.base().lemma_initial(num_players);
    }

    proof fn lemma_transition(&self, pos: Position, num_players: int, mv: (usize, usize)) {
        self.base().lemma_transition(pos, num_players, mv);
    }

    fn get_initial_board(&self) -> (b: Vec<Vec<BoardCell>>) {
        self.base_exec().get_initial_board()
    }

    fn get_initial_to_move(&self) -> (p: Player) {
        Player::Player0
    }

    fn get_valid_moves(&self, game: &Game<Self>) -> (moves: Vec<(usize, usize)>) {
        crate::push_up_four::column_valid_moves(game.state.get_board(), NUM_ROWS - 1)
    }

    fn transition(&self, game: &Game<Self>, move_row: usize, move_col: usize) -> (next: Box<
        GameState,
    >) {
        proof {
            crate::push_up_four::lemma_column_moves_in_range(
                game.state.pos().board[0],
                (NUM_ROWS - 1) as usize,
                NUM_COLS as nat,
            );
        }
        let stone = game.state.get_to_move();
        let new_board = crate::push_up_four::push_chip(game.state.get_board(), move_col, stone);
        let next_idx = (game.state.get_to_move().to_usize() + 1) % game.num_players;
        let next = GameState::new(
            Player::from_index(next_idx),
            game.state.get_move_num() + 1,
            new_board,
        );
        Box::new(next)
    }

    fn is_win(&self, game: &Game<Self>, player: Player) -> (r: bool) {
        crate::pushupfour::is_win(game.state.get_board(), player, N_IN_A_ROW)
    }

    fn is_tie(&self, game: &Game<Self>) -> (r: bool) {
        game.state.get_move_num() == NUM_ROWS * NUM_COLS || crate::pushupfour::is_tie_after_transition(
            game.state.get_board(),
            game.num_players,
            N_IN_A_ROW,
        )
    }
}

} // verus!
