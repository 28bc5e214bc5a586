//! A small rules object with scripted outcomes.
//!
//! The board is a single row. A move places the current player's stone on an
//! empty column. A player wins as soon as one of their marked columns holds
//! their stone and enough moves have been played; the game is tied once the
//! whole row is filled. Handy for exercising the engine on hand-picked game
//! trees.

use vstd::prelude::*;

use crate::game::{Game, GameState, Position};
use crate::game_elements::{BoardCell, Player};
use crate::game_spec::GameSpec;

verus! {

/// Rules of the scripted one-row game.
pub struct ScriptedSpec {
    /// Width of the single-row board.
    pub num_cols: usize,
    /// `(column, owner)`: the owner wins once their stone sits on the column.
    pub win_cells: Vec<(usize, Player)>,
    /// Win tests only fire from this move count on.
    pub win_from_move: usize,
}

/// The legal moves on the first `c` columns of a row: one move per empty
/// column, in increasing column order.
pub open spec fn row_moves_upto(row: Seq<BoardCell>, c: nat) -> Seq<(usize, usize)>
    decreases c,
{
    if c == 0 {
        Seq::empty()
    } else {
        row_moves_upto(row, (c - 1) as nat) + if row[c - 1] is None {
            seq![(0usize, (c - 1) as usize)]
        } else {
            Seq::empty()
        }
    }
}

impl ScriptedSpec {
    /// Whether some marked cell reports a win for `player` on `row`.
    pub open spec fn spec_hit(&self, row: Seq<BoardCell>, player: Player) -> bool {
        exists|i: int|
            0 <= i < self.win_cells@.len() && self.win_cells@[i].1 == player && row[
                self.win_cells@[i].0 as int
            ] == Some(player)
    }
}

impl GameSpec for ScriptedSpec {
    open spec fn wf(&self) -> bool {
        &&& 1 <= self.num_cols
        &&& forall|i: int| 0 <= i < self.win_cells@.len() ==> (#[trigger] self.win_cells@[i]).0
            < self.num_cols
    }

    open spec fn inv(&self, pos: Position) -> bool {
        &&& pos.board.len() == 1
        &&& pos.board[0].len() == self.num_cols
    }

    open spec fn spec_initial_board(&self) -> Seq<Seq<BoardCell>> {
        seq![Seq::new(self.num_cols as nat, |i: int| Option::<Player>::None)]
    }

    open spec fn spec_initial_to_move(&self) -> Player {
        Player::Player0
    }

    open spec fn spec_valid_moves(&self, pos: Position, num_players: int) -> Seq<(usize, usize)> {
        row_moves_upto(pos.board[0], self.num_cols as nat)
    }

    open spec fn spec_transition(&self, pos: Position, num_players: int, mv: (usize, usize)) -> Position {
        Position {
            to_move: crate::game_elements::player_of(
                (pos.to_move.spec_idx() + 1) % num_players,
            ),
            move_num: (pos.move_num + 1) as nat,
            board: pos.board.update(0, pos.board[0].update(mv.1 as int, Some(pos.to_move))),
        }
    }

    open spec fn spec_is_win(
        &self,
        pos: Position,
        hist: Seq<Position>,
        num_players: int,
        player: Player,
    ) -> bool {
        pos.move_num >= self.win_from_move && self.spec_hit(pos.board[0], player)
    }

    open spec fn spec_is_tie(&self, pos: Position, hist: Seq<Position>, num_players: int) -> bool {
        pos.move_num >= self.num_cols
    }

    proof fn lemma_initial(&self, num_players: int) {
    }

    proof fn lemma_transition(&self, pos: Position, num_players: int, mv: (usize, usize)) {
        lemma_row_moves_in_range(pos.board[0], self.num_cols as nat);
        assert(self.spec_transition(pos, num_players, mv).board[0].len() == self.num_cols);
    }

    fn get_initial_board(&self) -> (b: Vec<Vec<BoardCell>>) {
        let mut row: Vec<BoardCell> = Vec::new();
        let mut i: usize = 0;
        while i < self.num_cols
            invariant
                i <= self.num_cols,
                row@.len() == i,
                forall|k: int| 0 <= k < i ==> row@[k] is None,
            decreases self.num_cols - i,
        {
            row.push(Option::None);
            i += 1;
        }
        let mut b: Vec<Vec<BoardCell>> = Vec::new();
        b.push(row);
        proof {
            assert(crate::game_elements::board_view(b@) =~= self.spec_initial_board()) by {
                assert(b@[0]@ =~= Seq::new(self.num_cols as nat, |i: int| Option::<Player>::None));
            }
        }
        b
    }

    fn get_initial_to_move(&self) -> (p: Player) {
        Player::Player0
    }

    fn get_valid_moves(&self, game: &Game<Self>) -> (moves: Vec<(usize, usize)>) {
        let board = game.state.get_board();
        let row = &board[0];
        let mut moves: Vec<(usize, usize)> = Vec::new();
        let mut c: usize = 0;
        while c < self.num_cols
            invariant
                c <= self.num_cols,
                row == board@[0],
                board@.len() == 1,
                row@.len() == self.num_cols,
                row@ == game.state.pos().board[0],
                moves@ == row_moves_upto(game.state.pos().board[0], c as nat),
            decreases self.num_cols - c,
        {
            if row[c].is_none() {
                moves.push((0, c));
            }
            proof {
                let prow = game.state.pos().board[0];
                if prow[c as int] is None {
                    assert(moves@ =~= row_moves_upto(prow, c as nat) + seq![(0usize, c)]);
                } else {
                    assert(moves@ =~= row_moves_upto(prow, c as nat) + Seq::empty());
                }
            }
            c += 1;
        }
        moves
    }

    fn transition(&self, game: &Game<Self>, move_row: usize, move_col: usize) -> (next: Box<GameState>) {
        proof {
            lemma_row_moves_in_range(game.state.pos().board[0], self.num_cols as nat);
        }
        let board = game.state.get_board();
        let row = &board[0];
        let mut new_row: Vec<BoardCell> = Vec::new();
        let mut c: usize = 0;
        while c < self.num_cols
            invariant
                c <= self.num_cols,
                row@.len() == self.num_cols,
                row@ == game.state.pos().board[0],
                move_col < self.num_cols,
                new_row@.len() == c,
                forall|k: int| 0 <= k < c ==> new_row@[k] == if k == move_col {
                    Some(game.state.pos().to_move)
                } else {
                    game.state.pos().board[0][k]
                },
            decreases self.num_cols - c,
        {
            if c == move_col {
                new_row.push(Option::Some(game.state.get_to_move()));
            } else {
                new_row.push(row[c]);
            }
            c += 1;
        }
        let mut new_board: Vec<Vec<BoardCell>> = Vec::new();
        new_board.push(new_row);
        let next_idx = (game.state.get_to_move().to_usize() + 1) % game.num_players;
        let next = GameState::new(
            Player::from_index(next_idx),
            game.state.get_move_num() + 1,
            new_board,
        );
        proof {
            let pos = game.state.pos();
            let target = self.spec_transition(pos, game.num_players as int, (move_row, move_col));
            assert(next.pos().board[0] =~= target.board[0]);
            assert(next.pos().board =~= target.board);
        }
        Box::new(next)
    }

    fn is_win(&self, game: &Game<Self>, player: Player) -> (r: bool) {
        if game.state.get_move_num() < self.win_from_move {
            return false;
        }
        let board = game.state.get_board();
        let row = &board[0];
        let mut i: usize = 0;
        while i < self.win_cells.len()
            invariant
                i <= self.win_cells@.len(),
                game.state.move_num >= self.win_from_move,
                row@ == game.state.pos().board[0],
                row@.len() == self.num_cols,
                forall|k: int| 0 <= k < self.win_cells@.len() ==> (#[trigger] self.win_cells@[k]).0
                    < self.num_cols,
                forall|k: int| 0 <= k < i ==> !(self.win_cells@[k].1 == player && row@[
                    self.win_cells@[k].0 as int
                ] == Some(player)),
            decreases self.win_cells@.len() - i,
        {
            let (cell, owner) = self.win_cells[i];
            if owner == player {
                let c = row[cell];
                let hit = match c {
                    Option::Some(p) => p == player,
                    Option::None => false,
                };
                if hit {
                    proof {
                        let prow = game.state.pos().board[0];
                        assert(row@ == prow);
                        assert(self.win_cells@[i as int].0 == cell && self.win_cells@[i as int].1
                            == owner);
                        assert(prow[cell as int] == Some(player));
                        assert(self.spec_hit(prow, player));
                        assert(game.state.pos().move_num >= self.win_from_move);
                    }
                    return true;
                }
            }
            i += 1;
        }
        proof {
            assert(!self.spec_hit(game.state.pos().board[0], player));
        }
        false
    }

    fn is_tie(&self, game: &Game<Self>) -> (r: bool) {
        game.state.get_move_num() >= self.num_cols
    }
}

/// Every move produced for a row stays within the first `c` columns and
/// names the single row.
pub proof fn lemma_row_moves_in_range(row: Seq<BoardCell>, c: nat)
    ensures
        forall|k: int| 0 <= k < row_moves_upto(row, c).len() ==> (
        #[trigger] row_moves_upto(row, c)[k]).0 == 0 && row_moves_upto(row, c)[k].1 < c,
    decreases c,
{
    if c > 0 {
        lemma_row_moves_in_range(row, (c - 1) as nat);
        let prev = row_moves_upto(row, (c - 1) as nat);
        let cur = row_moves_upto(row, c);
        assert forall|k: int| 0 <= k < cur.len() implies (#[trigger] cur[k]).0 == 0 && cur[k].1
            < c by {
            if k < prev.len() {
                assert(cur[k] == prev[k]);
            } else {
                assert(row[c - 1] is None);
                assert(cur[k] == (0usize, (c - 1) as usize));
            }
        }
    }
}

} // verus!
