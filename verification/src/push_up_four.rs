//! Rules of the push-up-four game.
//!
//! InitialState: empty board; player 0 moves first.
//! ValidMoves: a chip may be placed at the bottom of any column whose top
//! cell is still free.
//! TransitionFunction: the chip enters at the bottom of the column, pushing
//! the chips above it up by one row.
//! WinCondition: `n_in_a_row` consecutive chips in a row, column or diagonal.
//! TieCondition: more than one player wins simultaneously, or the board
//! fills up.

use vstd::prelude::*;

use crate::game::{Game, GameState, Position};
use crate::game_elements::{board_view, player_of, BoardCell, Player, MAX_PLAYERS};
use crate::game_spec::GameSpec;
use crate::pushupfour::{
    board_rect, is_tie_after_transition, is_win, spec_line_win, winners_upto,
};

verus! {

/// The legal moves among the first `c` columns: one per column whose top
/// cell is free, entering at the bottom row, in increasing column order.
pub open spec fn column_moves_upto(top: Seq<BoardCell>, bottom_row: usize, c: nat) -> Seq<
    (usize, usize),
>
    decreases c,
{
    if c == 0 {
        Seq::empty()
    } else {
        column_moves_upto(top, bottom_row, (c - 1) as nat) + if top[c - 1] is None {
            seq![(bottom_row, (c - 1) as usize)]
        } else {
            Seq::empty()
        }
    }
}

/// Every move produced enters at the bottom row of a column below `c`.
pub proof fn lemma_column_moves_in_range(top: Seq<BoardCell>, bottom_row: usize, c: nat)
    ensures
        forall|k: int|
            0 <= k < column_moves_upto(top, bottom_row, c).len() ==> (
            #[trigger] column_moves_upto(top, bottom_row, c)[k]).0 == bottom_row
                && column_moves_upto(top, bottom_row, c)[k].1 < c,
    decreases c,
{
    if c > 0 {
        lemma_column_moves_in_range(top, bottom_row, (c - 1) as nat);
        let prev = column_moves_upto(top, bottom_row, (c - 1) as nat);
        let cur = column_moves_upto(top, bottom_row, c);
        assert forall|k: int| 0 <= k < cur.len() implies (#[trigger] cur[k]).0 == bottom_row
            && cur[k].1 < c by {
            if k < prev.len() {
                assert(cur[k] == prev[k]);
            } else {
                assert(top[c - 1] is None);
                assert(cur[k] == (bottom_row, (c - 1) as usize));
            }
        }
    }
}

/// The board after a chip of `stone` enters at the bottom of `col`: that
/// column shifts up one row and the new chip fills the bottom cell; every
/// other column is unchanged.
pub open spec fn pushed_board(b: Seq<Seq<BoardCell>>, col: int, stone: Player) -> Seq<
    Seq<BoardCell>,
> {
    Seq::new(
        b.len(),
        |r: int|
            Seq::new(
                b[r].len(),
                |c: int|
                    if c != col {
                        b[r][c]
                    } else if r < b.len() - 1 {
                        b[r + 1][col]
                    } else {
                        Some(stone)
                    },
            ),
    )
}

/// The legal moves of a push-up game: the bottom cell of every column whose
/// top cell is free.
pub fn column_valid_moves(board: &Vec<Vec<BoardCell>>, bottom_row: usize) -> (moves: Vec<
    (usize, usize),
>)
    requires
        board@.len() >= 1,
    ensures
        moves@ == column_moves_upto(
            board_view(board@)[0],
            bottom_row,
            board_view(board@)[0].len() as nat,
        ),
{
    let ghost top = board_view(board@)[0];
    let row = &board[0];
    let num_cols = row.len();
    let mut moves: Vec<(usize, usize)> = Vec::new();
    let mut c: usize = 0;
    while c < num_cols
        invariant
            c <= num_cols,
            row == board@[0],
            board@.len() >= 1,
            top == board_view(board@)[0],
            row@ == top,
            num_cols == top.len(),
            moves@ == column_moves_upto(top, bottom_row, c as nat),
        decreases num_cols - c,
    {
        if row[c].is_none() {
            moves.push((bottom_row, c));
        }
        proof {
            if top[c as int] is None {
                assert(moves@ =~= column_moves_upto(top, bottom_row, c as nat) + seq![
                    (bottom_row, c),
                ]);
            } else {
                assert(moves@ =~= column_moves_upto(top, bottom_row, c as nat)
                    + Seq::<(usize, usize)>::empty());
            }
        }
        c += 1;
    }
    moves
}

/// Push a chip of `stone` up from the bottom of `move_col`, shifting the
/// chips above it up by one row.
pub fn push_chip(board: &Vec<Vec<BoardCell>>, move_col: usize, stone: Player) -> (nb: Vec<
    Vec<BoardCell>,
>)
    requires
        board@.len() >= 1,
        board_rect(board_view(board@)),
        (move_col as int) < board_view(board@)[0].len(),
    ensures
        board_view(nb@) == pushed_board(board_view(board@), move_col as int, stone),
{
    let ghost b = board_view(board@);
    let num_rows = board.len();
    let mut nb = crate::game::clone_board(board);
    let mut row: usize = 0;
    while row < num_rows - 1
        invariant
            row <= num_rows - 1,
            num_rows == b.len(),
            num_rows >= 1,
            b == board_view(board@),
            board_rect(b),
            (move_col as int) < b[0].len(),
            board_view(nb@).len() == num_rows,
            forall|r2: int| 0 <= r2 < num_rows ==> (#[trigger] board_view(nb@)[r2]).len()
                == b[r2].len(),
            forall|r2: int, c2: int|
                0 <= r2 < num_rows && 0 <= c2 < b[r2].len() && c2 != move_col
                    ==> board_view(nb@)[r2][c2] == b[r2][c2],
            forall|r2: int|
                0 <= r2 < row ==> board_view(nb@)[r2][move_col as int] == b[r2 + 1][
                    move_col as int
                ],
            forall|r2: int|
                row <= r2 < num_rows ==> board_view(nb@)[r2][move_col as int] == b[r2][
                    move_col as int
                ],
        decreases num_rows - 1 - row,
    {
        proof {
            assert(b[row as int] == board@[row as int]@);
            assert(b[row + 1] == board@[row + 1]@);
        }
        let ghost before = board_view(nb@);
        let v = nb[row + 1][move_col];
        assert(v == b[row + 1][move_col as int]);
        nb[row][move_col] = v;
        proof {
            assert forall|r2: int| 0 <= r2 < num_rows implies (#[trigger] board_view(nb@)[r2])
                =~= (if r2 == row {
                before[r2].update(move_col as int, v)
            } else {
                before[r2]
            }) by {}
        }
        row += 1;
    }
    proof {
        assert(b[num_rows - 1] == board@[num_rows - 1]@);
    }
    let ghost before = board_view(nb@);
    nb[num_rows - 1][move_col] = Option::Some(stone);
    proof {
        assert forall|r2: int| 0 <= r2 < num_rows implies (#[trigger] board_view(nb@)[r2]) =~= (
        if r2 == num_rows - 1 {
            before[r2].update(move_col as int, Some(stone))
        } else {
            before[r2]
        }) by {}
        assert(board_view(nb@) =~~= pushed_board(b, move_col as int, stone));
    }
    nb
}

/// Rules of a push-up-four game over a board of the given size, winning
/// with `n_in_a_row` chips in a line.
pub struct PushUpFourSpec {
    pub num_rows: usize,
    pub num_cols: usize,
    pub n_in_a_row: usize,
}

impl GameSpec for PushUpFourSpec {
    open spec fn wf(&self) -> bool {
        &&& 1 <= self.num_rows <= 256
        &&& 1 <= self.num_cols <= 256
        &&& 1 <= self.n_in_a_row
    }

    open spec fn inv(&self, pos: Position) -> bool {
        &&& pos.board.len() == self.num_rows
        &&& board_rect(pos.board)
        &&& pos.board[0].len() == self.num_cols
    }

    open spec fn spec_initial_board(&self) -> Seq<Seq<BoardCell>> {
        Seq::new(
            self.num_rows as nat,
            |r: int| Seq::new(self.num_cols as nat, |c: int| Option::<Player>::None),
        )
    }

    open spec fn spec_initial_to_move(&self) -> Player {
        Player::Player0
    }

    open spec fn spec_valid_moves(&self, pos: Position, num_players: int) -> Seq<(usize, usize)> {
        column_moves_upto(pos.board[0], (self.num_rows - 1) as usize, self.num_cols as nat)
    }

    open spec fn spec_transition(&self, pos: Position, num_players: int, mv: (usize, usize)) -> Position {
        Position {
            to_move: player_of((pos.to_move.spec_idx() + 1) % num_players),
            move_num: (pos.move_num + 1) as nat,
            board: pushed_board(pos.board, mv.1 as int, pos.to_move),
        }
    }

    open spec fn spec_is_win(
        &self,
        pos: Position,
        hist: Seq<Position>,
        num_players: int,
        player: Player,
    ) -> bool {
        spec_line_win(pos.board, player, self.n_in_a_row as int)
    }

    open spec fn spec_is_tie(&self, pos: Position, hist: Seq<Position>, num_players: int) -> bool {
        pos.move_num == self.num_rows * self.num_cols || winners_upto(
            pos.board,
            self.n_in_a_row as int,
            num_players,
        ) > 1
    }

    proof fn lemma_initial(&self, num_players: int) {
        assert(self.spec_initial_board()[0].len() == self.num_cols);
        assert(board_rect(self.spec_initial_board()));
    }

    proof fn lemma_transition(&self, pos: Position, num_players: int, mv: (usize, usize)) {
        lemma_column_moves_in_range(
            pos.board[0],
            (self.num_rows - 1) as usize,
            self.num_cols as nat,
        );
        let nb = pushed_board(pos.board, mv.1 as int, pos.to_move);
        assert(board_rect(nb)) by {
            assert forall|r: int| 0 <= r < nb.len() implies (#[trigger] nb[r]).len() == nb[0].len()
                by {
                assert(nb[r].len() == pos.board[r].len());
                assert(nb[0].len() == pos.board[0].len());
            }
        }
        assert(nb[0].len() == pos.board[0].len());
    }

    fn get_initial_board(&self) -> (b: Vec<Vec<BoardCell>>) {
        let mut b: Vec<Vec<BoardCell>> = Vec::new();
        let mut r: usize = 0;
        while r < self.num_rows
            invariant
                r <= self.num_rows,
                b@.len() == r,
                forall|r2: int| 0 <= r2 < r ==> (#[trigger] board_view(b@)[r2])
                    == self.spec_initial_board()[r2],
            decreases self.num_rows - r,
        {
            let mut row: Vec<BoardCell> = Vec::new();
            let mut c: usize = 0;
            while c < self.num_cols
                invariant
                    c <= self.num_cols,
                    row@.len() == c,
                    forall|c2: int| 0 <= c2 < c ==> row@[c2] is None,
                decreases self.num_cols - c,
            {
                row.push(Option::None);
                c += 1;
            }
            proof {
                assert(row@ =~= self.spec_initial_board()[r as int]);
            }
            let ghost prev = b@;
            b.push(row);
            proof {
                assert forall|r2: int| 0 <= r2 < r + 1 implies (#[trigger] board_view(b@)[r2])
                    == self.spec_initial_board()[r2] by {
                    assert(board_view(b@)[r2] == b@[r2]@);
                    if r2 < r {
                        assert(b@[r2] == prev[r2]);
                        assert(board_view(prev)[r2] == prev[r2]@);
                    }
                }
            }
            r += 1;
        }
        proof {
            assert(board_view(b@) =~= self.spec_initial_board());
        }
        b
    }

    fn get_initial_to_move(&self) -> (p: Player) {
        Player::Player0
    }

    fn get_valid_moves(&self, game: &Game<Self>) -> (moves: Vec<(usize, usize)>) {
        column_valid_moves(game.state.get_board(), self.num_rows - 1)
    }

    fn transition(&self, game: &Game<Self>, move_row: usize, move_col: usize) -> (next: Box<
        GameState,
    >) {
        proof {
            lemma_column_moves_in_range(
                game.state.pos().board[0],
                (self.num_rows - 1) as usize,
                self.num_cols as nat,
            );
        }
        let stone = game.state.get_to_move();
        let new_board = push_chip(game.state.get_board(), move_col, stone);
        let next_idx = (game.state.get_to_move().to_usize() + 1) % game.num_players;
        let next = GameState::new(
            Player::from_index(next_idx),
            game.state.get_move_num() + 1,
            new_board,
        );
        Box::new(next)
    }

    fn is_win(&self, game: &Game<Self>, player: Player) -> (r: bool) {
        is_win(game.state.get_board(), player, self.n_in_a_row)
    }

    fn is_tie(&self, game: &Game<Self>) -> (r: bool) {
        proof {
            assert(self.num_rows * self.num_cols <= 65536) by (nonlinear_arith)
                requires
                    self.num_rows <= 256,
                    self.num_cols <= 256,
            ;
        }
        let total = self.num_rows * self.num_cols;
        game.state.get_move_num() == total || is_tie_after_transition(
            game.state.get_board(),
            game.num_players,
            self.n_in_a_row,
        )
    }
}

} // verus!
