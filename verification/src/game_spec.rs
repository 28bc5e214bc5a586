//! The rules interface: one implementation per game.

use vstd::prelude::*;

use crate::game::{Game, GameState, Position};
use crate::game_elements::{BoardCell, Player, MAX_PLAYERS};

verus! {

/// A capability object that defines one game: how to build the initial
/// state, which moves are legal, how a move transforms the state, and when
/// the game is won or tied. The engine makes no further assumption about
/// game semantics.
///
/// Every operation is pinned to a spec-level function of the position, so a
/// rules object is deterministic by contract. The win and tie tests may also
/// inspect the chain of predecessor positions (for example to detect two
/// consecutive passes).
pub trait GameSpec: Sized {
    /// Well-formedness of the rules object itself (its parameters).
    spec fn wf(&self) -> bool;

    /// The positions this rules object can handle (board dimensions and the
    /// like). Established by the initial state and preserved by transitions.
    spec fn inv(&self, pos: Position) -> bool;

    spec fn spec_initial_board(&self) -> Seq<Seq<BoardCell>>;

    spec fn spec_initial_to_move(&self) -> Player;

    spec fn spec_valid_moves(&self, pos: Position, num_players: int) -> Seq<(usize, usize)>;

    spec fn spec_transition(&self, pos: Position, num_players: int, mv: (usize, usize)) -> Position;

    spec fn spec_is_win(&self, pos: Position, hist: Seq<Position>, num_players: int, player: Player) -> bool;

    spec fn spec_is_tie(&self, pos: Position, hist: Seq<Position>, num_players: int) -> bool;

    /// The initial board satisfies the position invariant together with the
    /// initial player and a move counter of zero, and the initial player's
    /// index is in range for the given player count.
    proof fn lemma_initial(&self, num_players: int)
        requires
            self.wf(),
            1 <= num_players <= MAX_PLAYERS,
        ensures
            self.inv(
                Position {
                    to_move: self.spec_initial_to_move(),
                    move_num: 0,
                    board: self.spec_initial_board(),
                },
            ),
            0 <= self.spec_initial_to_move().spec_idx() < num_players,
    ;

    /// A transition along a legal move advances the move counter by one,
    /// hands the turn to a player in range, and preserves the position
    /// invariant.
    proof fn lemma_transition(&self, pos: Position, num_players: int, mv: (usize, usize))
        requires
            self.wf(),
            self.inv(pos),
            1 <= num_players <= MAX_PLAYERS,
            self.spec_valid_moves(pos, num_players).contains(mv),
        ensures
            self.spec_transition(pos, num_players, mv).move_num == pos.move_num + 1,
            0 <= self.spec_transition(pos, num_players, mv).to_move.spec_idx() < num_players,
            self.inv(self.spec_transition(pos, num_players, mv)),
    ;

    fn get_initial_board(&self) -> (b: Vec<Vec<BoardCell>>)
        requires
            self.wf(),
        ensures
            crate::game_elements::board_view(b@) == self.spec_initial_board(),
    ;

    fn get_initial_to_move(&self) -> (p: Player)
        requires
            self.wf(),
        ensures
            p == self.spec_initial_to_move(),
    ;

    fn get_valid_moves(&self, game: &Game<Self>) -> (moves: Vec<(usize, usize)>)
        requires
            self.wf(),
            self.inv(game.state.pos()),
            1 <= game.num_players <= MAX_PLAYERS,
        ensures
            moves@ == self.spec_valid_moves(game.state.pos(), game.num_players as int),
    ;

    fn transition(&self, game: &Game<Self>, move_row: usize, move_col: usize) -> (next: Box<GameState>)
        requires
            self.wf(),
            self.inv(game.state.pos()),
            1 <= game.num_players <= MAX_PLAYERS,
            self.spec_valid_moves(game.state.pos(), game.num_players as int).contains(
                (move_row, move_col),
            ),
            game.state.move_num < usize::MAX,
        ensures
            next.pos() == self.spec_transition(
                game.state.pos(),
                game.num_players as int,
                (move_row, move_col),
            ),
            next.prev_state is None,
    ;

    fn is_win(&self, game: &Game<Self>, player: Player) -> (r: bool)
        requires
            self.wf(),
            self.inv(game.state.pos()),
            1 <= game.num_players <= MAX_PLAYERS,
        ensures
            r == self.spec_is_win(
                game.state.pos(),
                game.state.hist(),
                game.num_players as int,
                player,
            ),
    ;

    fn is_tie(&self, game: &Game<Self>) -> (r: bool)
        requires
            self.wf(),
            self.inv(game.state.pos()),
            1 <= game.num_players <= MAX_PLAYERS,
        ensures
            r == self.spec_is_tie(game.state.pos(), game.state.hist(), game.num_players as int),
    ;
}

} // verus!
