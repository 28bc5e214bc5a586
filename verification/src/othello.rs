//! Rules of the disk-flipping game, played on a fixed eight-by-eight board.
//!
//! A move is legal when it is placed on an empty cell and, in at least one
//! of the eight directions, a straight run of opponent disks ends at one of
//! the mover's own disks. The transition places the disk and flips the
//! enclosed runs; the flip itself promises that it only turns opponent
//! disks into the mover's, and never touches any other cell.

use vstd::prelude::*;

use crate::game::GameState;
use crate::game_elements::{board_view, BoardCell, Player, MAX_PLAYERS};
use crate::pushupfour::count_matching;

verus! {

pub const BOARD_SIDE: usize = 8;

/// The fixed square board of this game.
pub open spec fn dims8(b: Seq<Seq<BoardCell>>) -> bool {
    &&& b.len() == BOARD_SIDE
    &&& forall|r: int| 0 <= r < b.len() ==> (#[trigger] b[r]).len() == BOARD_SIDE
}

/// The walk along one direction that decides whether a move captures
/// there: step over opponent disks, and succeed on reaching one of the
/// mover's own disks after at least one opponent disk. The walk mirrors
/// the scan the code performs, fuel included; the fuel never binds on the
/// fixed board, whose rays are at most eight cells long.
pub open spec fn walk_valid(
    b: Seq<Seq<BoardCell>>,
    r: int,
    c: int,
    dr: int,
    dc: int,
    player: Player,
    has_opp: bool,
    fuel: nat,
) -> bool
    decreases fuel,
{
    if fuel == 0 || !(0 <= r < BOARD_SIDE && 0 <= c < BOARD_SIDE) {
        false
    } else {
        match b[r][c] {
            Option::None => false,
            Option::Some(q) => if q == player {
                has_opp
            } else {
                walk_valid(b, r + dr, c + dc, dr, dc, player, true, (fuel - 1) as nat)
            },
        }
    }
}

/// Whether placing at `(row, col)` captures along direction `(dr, dc)`.
pub open spec fn dir_valid(
    b: Seq<Seq<BoardCell>>,
    row: int,
    col: int,
    dr: int,
    dc: int,
    player: Player,
) -> bool {
    walk_valid(b, row + dr, col + dc, dr, dc, player, false, (BOARD_SIDE + 1) as nat)
}

/// The run of opponent disks a direction walk collects: the cells of
/// `acc` plus every consecutive opponent cell from `(r, c)` on, provided
/// the run ends at one of the mover's own disks; the empty sequence when
/// the walk runs into an empty cell, the border, or out of fuel. Mirrors
/// the collecting scan, fuel included; the fuel never binds on the fixed
/// board.
pub open spec fn walk_flips(
    b: Seq<Seq<BoardCell>>,
    r: int,
    c: int,
    dr: int,
    dc: int,
    player: Player,
    acc: Seq<(int, int)>,
    fuel: nat,
) -> Seq<(int, int)>
    decreases fuel,
{
    if fuel == 0 || !(0 <= r < BOARD_SIDE && 0 <= c < BOARD_SIDE) {
        Seq::empty()
    } else {
        match b[r][c] {
            Option::None => Seq::empty(),
            Option::Some(q) => if q == player {
                acc
            } else {
                walk_flips(b, r + dr, c + dc, dr, dc, player, acc.push((r, c)), (fuel - 1) as nat)
            },
        }
    }
}

/// The maximal run of opponent disks next to `(row, col)` along
/// `(dr, dc)` that is enclosed by one of the mover's own disks; empty when
/// no such enclosure exists.
pub open spec fn dir_flip_run(
    b: Seq<Seq<BoardCell>>,
    row: int,
    col: int,
    dr: int,
    dc: int,
    player: Player,
) -> Seq<(int, int)> {
    walk_flips(b, row + dr, col + dc, dr, dc, player, Seq::empty(), (BOARD_SIDE + 1) as nat)
}

/// The enclosed run along the direction with index `d`, the eight
/// directions in scanning order.
pub open spec fn run_of(b: Seq<Seq<BoardCell>>, row: int, col: int, d: int, player: Player) -> Seq<
    (int, int),
> {
    if d == 0 {
        dir_flip_run(b, row, col, -1, -1, player)
    } else if d == 1 {
        dir_flip_run(b, row, col, -1, 0, player)
    } else if d == 2 {
        dir_flip_run(b, row, col, -1, 1, player)
    } else if d == 3 {
        dir_flip_run(b, row, col, 0, -1, player)
    } else if d == 4 {
        dir_flip_run(b, row, col, 0, 1, player)
    } else if d == 5 {
        dir_flip_run(b, row, col, 1, -1, player)
    } else if d == 6 {
        dir_flip_run(b, row, col, 1, 0, player)
    } else {
        dir_flip_run(b, row, col, 1, 1, player)
    }
}

/// Whether the cell `(r, c)` lies on one of the first `d` enclosed runs.
pub open spec fn flipped_by(
    b: Seq<Seq<BoardCell>>,
    row: int,
    col: int,
    player: Player,
    d: int,
    r: int,
    c: int,
) -> bool {
    exists|d2: int| 0 <= d2 < d && #[trigger] run_of(b, row, col, d2, player).contains((r, c))
}

/// Whether placing `player`'s disk at `(row, col)` flips the cell: it lies
/// on a maximal run of opponent disks from the placed cell that ends,
/// within the board, at one of `player`'s own disks.
pub open spec fn spec_flipped(
    b: Seq<Seq<BoardCell>>,
    row: int,
    col: int,
    player: Player,
    r: int,
    c: int,
) -> bool {
    flipped_by(b, row, col, player, 8, r, c)
}

/// Cell coordinates as unbounded integers.
pub open spec fn pairs_view(v: Seq<(usize, usize)>) -> Seq<(int, int)> {
    v.map_values(|e: (usize, usize)| (e.0 as int, e.1 as int))
}

/// Applying one more run on top of the first `d` flips exactly the union.
proof fn lemma_flip_step(
    b0: Seq<Seq<BoardCell>>,
    row: int,
    col: int,
    player: Player,
    d: int,
    prev: Seq<Seq<BoardCell>>,
    cur: Seq<Seq<BoardCell>>,
)
    requires
        0 <= d < 8,
        forall|r: int, c: int|
            0 <= r < BOARD_SIDE && 0 <= c < BOARD_SIDE ==> prev[r][c] == (if flipped_by(
                b0,
                row,
                col,
                player,
                d,
                r,
                c,
            ) {
                Some(player)
            } else {
                b0[r][c]
            }),
        forall|r: int, c: int|
            0 <= r < BOARD_SIDE && 0 <= c < BOARD_SIDE ==> cur[r][c] == (if run_of(
                b0,
                row,
                col,
                d,
                player,
            ).contains((r, c)) {
                Some(player)
            } else {
                prev[r][c]
            }),
    ensures
        forall|r: int, c: int|
            0 <= r < BOARD_SIDE && 0 <= c < BOARD_SIDE ==> cur[r][c] == (if flipped_by(
                b0,
                row,
                col,
                player,
                d + 1,
                r,
                c,
            ) {
                Some(player)
            } else {
                b0[r][c]
            }),
{
    assert forall|r: int, c: int| 0 <= r < BOARD_SIDE && 0 <= c < BOARD_SIDE implies cur[r][c]
        == (if flipped_by(b0, row, col, player, d + 1, r, c) {
        Some(player)
    } else {
        b0[r][c]
    }) by {
        if run_of(b0, row, col, d, player).contains((r, c)) {
            assert(flipped_by(b0, row, col, player, d + 1, r, c));
        } else {
            if flipped_by(b0, row, col, player, d, r, c) {
                let d2 = choose|d2: int|
                    0 <= d2 < d && #[trigger] run_of(b0, row, col, d2, player).contains((r, c));
                assert(run_of(b0, row, col, d2, player).contains((r, c)));
                assert(flipped_by(b0, row, col, player, d + 1, r, c));
            } else {
                assert(!flipped_by(b0, row, col, player, d + 1, r, c)) by {
                    if flipped_by(b0, row, col, player, d + 1, r, c) {
                        let d2 = choose|d2: int|
                            0 <= d2 < d + 1 && #[trigger] run_of(b0, row, col, d2, player).contains(
                                (r, c),
                            );
                        if d2 < d {
                            assert(flipped_by(b0, row, col, player, d, r, c));
                        }
                    }
                }
            }
        }
    }
}

/// A legal move: an empty cell that captures in at least one direction.
pub open spec fn spec_is_valid_move(
    b: Seq<Seq<BoardCell>>,
    row: int,
    col: int,
    player: Player,
) -> bool {
    &&& b[row][col] is None
    &&& (dir_valid(b, row, col, -1, -1, player) || dir_valid(b, row, col, -1, 0, player)
        || dir_valid(b, row, col, -1, 1, player) || dir_valid(b, row, col, 0, -1, player)
        || dir_valid(b, row, col, 0, 1, player) || dir_valid(b, row, col, 1, -1, player)
        || dir_valid(b, row, col, 1, 0, player) || dir_valid(b, row, col, 1, 1, player))
}

/// Scan one direction from `(row, col)` for a capturing run.
fn scan_dir(
    board: &Vec<Vec<BoardCell>>,
    row: usize,
    col: usize,
    dr: i32,
    dc: i32,
    player: Player,
) -> (res: bool)
    requires
        dims8(board_view(board@)),
        row < BOARD_SIDE,
        col < BOARD_SIDE,
        -1 <= dr <= 1,
        -1 <= dc <= 1,
    ensures
        res == dir_valid(board_view(board@), row as int, col as int, dr as int, dc as int, player),
{
    let ghost b = board_view(board@);
    let mut r: i32 = row as i32 + dr;
    let mut c: i32 = col as i32 + dc;
    let mut has_opp: bool = false;
    let mut fuel: usize = BOARD_SIDE + 1;
    while fuel > 0 && r >= 0 && r < 8 && c >= 0 && c < 8
        invariant
            b == board_view(board@),
            dims8(b),
            -1 <= dr <= 1,
            -1 <= dc <= 1,
            -2 <= r <= 9,
            -2 <= c <= 9,
            fuel <= BOARD_SIDE + 1,
            dir_valid(b, row as int, col as int, dr as int, dc as int, player) == walk_valid(
                b,
                r as int,
                c as int,
                dr as int,
                dc as int,
                player,
                has_opp,
                fuel as nat,
            ),
        decreases fuel,
    {
        proof {
            assert(b[r as int] == board@[r as int]@);
        }
        let cell = board[r as usize][c as usize];
        match cell {
            Option::None => {
                return false;
            },
            Option::Some(q) => {
                if q == player {
                    return has_opp;
                }
                has_opp = true;
                r = r + dr;
                c = c + dc;
                fuel = fuel - 1;
            },
        }
    }
    false
}

pub struct OthelloSpec;

impl OthelloSpec {
    /// Whether placing `player`'s disk at `(row, col)` is legal: the cell
    /// is empty and some direction holds a capturing run.
    pub fn is_valid_move(
        board: &Vec<Vec<BoardCell>>,
        row: usize,
        col: usize,
        player: Player,
    ) -> (res: bool)
        requires
            dims8(board_view(board@)),
            row < BOARD_SIDE,
            col < BOARD_SIDE,
        ensures
            res == spec_is_valid_move(board_view(board@), row as int, col as int, player),
    {
        proof {
            assert(board_view(board@)[row as int] == board@[row as int]@);
        }
        if board[row][col].is_some() {
            return false;
        }
        scan_dir(board, row, col, -1, -1, player) || scan_dir(board, row, col, -1, 0, player)
            || scan_dir(board, row, col, -1, 1, player) || scan_dir(board, row, col, 0, -1, player)
            || scan_dir(board, row, col, 0, 1, player) || scan_dir(board, row, col, 1, -1, player)
            || scan_dir(board, row, col, 1, 0, player) || scan_dir(board, row, col, 1, 1, player)
    }

    /// Flip the disks captured by a disk of `player` placed at
    /// `(row, col)`: collect the enclosed opponent run of each of the
    /// eight directions, then turn every cell of those runs into
    /// `player`'s disk. A cell changes exactly when it lies on such a run.
    pub fn flip_discs(board: &mut Vec<Vec<BoardCell>>, row: usize, col: usize, player: Player)
        requires
            dims8(board_view(old(board)@)),
            row < BOARD_SIDE,
            col < BOARD_SIDE,
        ensures
            dims8(board_view(final(board)@)),
            forall|r: int, c: int|
                0 <= r < BOARD_SIDE && 0 <= c < BOARD_SIDE ==> board_view(final(board)@)[r][c]
                    == (if spec_flipped(
                    board_view(old(board)@),
                    row as int,
                    col as int,
                    player,
                    r,
                    c,
                ) {
                    Some(player)
                } else {
                    board_view(old(board)@)[r][c]
                }),
    {
        let ghost b0 = board_view(board@);
        let run0 = collect_flips(board, row, col, -1, -1, player);
        let run1 = collect_flips(board, row, col, -1, 0, player);
        let run2 = collect_flips(board, row, col, -1, 1, player);
        let run3 = collect_flips(board, row, col, 0, -1, player);
        let run4 = collect_flips(board, row, col, 0, 1, player);
        let run5 = collect_flips(board, row, col, 1, -1, player);
        let run6 = collect_flips(board, row, col, 1, 0, player);
        let run7 = collect_flips(board, row, col, 1, 1, player);
        proof {
            assert(pairs_view(run0@) == run_of(b0, row as int, col as int, 0, player));
            assert(pairs_view(run1@) == run_of(b0, row as int, col as int, 1, player));
            assert(pairs_view(run2@) == run_of(b0, row as int, col as int, 2, player));
            assert(pairs_view(run3@) == run_of(b0, row as int, col as int, 3, player));
            assert(pairs_view(run4@) == run_of(b0, row as int, col as int, 4, player));
            assert(pairs_view(run5@) == run_of(b0, row as int, col as int, 5, player));
            assert(pairs_view(run6@) == run_of(b0, row as int, col as int, 6, player));
            assert(pairs_view(run7@) == run_of(b0, row as int, col as int, 7, player));
            assert forall|r: int, c: int|
                0 <= r < BOARD_SIDE && 0 <= c < BOARD_SIDE implies board_view(board@)[r][c] == (
            if flipped_by(b0, row as int, col as int, player, 0, r, c) {
                Some(player)
            } else {
                b0[r][c]
            }) by {
                assert(!flipped_by(b0, row as int, col as int, player, 0, r, c));
            }
        }
        let ghost prev0 = board_view(board@);
        apply_run(board, &run0, player);
        proof {
            lemma_flip_step(b0, row as int, col as int, player, 0, prev0, board_view(board@));
        }
        let ghost prev1 = board_view(board@);
        apply_run(board, &run1, player);
        proof {
            lemma_flip_step(b0, row as int, col as int, player, 1, prev1, board_view(board@));
        }
        let ghost prev2 = board_view(board@);
        apply_run(board, &run2, player);
        proof {
            lemma_flip_step(b0, row as int, col as int, player, 2, prev2, board_view(board@));
        }
        let ghost prev3 = board_view(board@);
        apply_run(board, &run3, player);
        proof {
            lemma_flip_step(b0, row as int, col as int, player, 3, prev3, board_view(board@));
        }
        let ghost prev4 = board_view(board@);
        apply_run(board, &run4, player);
        proof {
            lemma_flip_step(b0, row as int, col as int, player, 4, prev4, board_view(board@));
        }
        let ghost prev5 = board_view(board@);
        apply_run(board, &run5, player);
        proof {
            lemma_flip_step(b0, row as int, col as int, player, 5, prev5, board_view(board@));
        }
        let ghost prev6 = board_view(board@);
        apply_run(board, &run6, player);
        proof {
            lemma_flip_step(b0, row as int, col as int, player, 6, prev6, board_view(board@));
        }
        let ghost prev7 = board_view(board@);
        apply_run(board, &run7, player);
        proof {
            lemma_flip_step(b0, row as int, col as int, player, 7, prev7, board_view(board@));
        }
    }

    /// How many disks of `player` sit on the board.
    pub fn get_player_disc_count(&self, board: &Vec<Vec<BoardCell>>, player: Player) -> (count:
        usize)
        requires
            dims8(board_view(board@)),
        ensures
            count == spec_disc_count(board_view(board@), player),
    {
        let ghost b = board_view(board@);
        let mut count: usize = 0;
        let mut r: usize = 0;
        while r < 8
            invariant
                r <= 8,
                b == board_view(board@),
                dims8(b),
                count == disc_upto(b, player, r as nat),
                count <= 64,
            decreases 8 - r,
        {
            proof {
                lemma_disc_upto_bounds(b, player, r as nat);
            }
            let row = &board[r];
            proof {
                assert(b[r as int] == board@[r as int]@);
            }
            let mut c: usize = 0;
            while c < row.len()
                invariant
                    c <= row@.len(),
                    row@.len() == BOARD_SIDE,
                    row@ == b[r as int],
                    r < 8,
                    b == board_view(board@),
                    dims8(b),
                    count == disc_upto(b, player, r as nat) + count_matching(
                        row@.take(c as int),
                        player,
                    ),
                    count <= 64,
                decreases row@.len() - c,
            {
                proof {
                    lemma_disc_upto_bounds(b, player, r as nat);
                    crate::pushupfour::lemma_count_bounds(row@.take(c as int), player);
                    assert(row@.take(c + 1).drop_last() =~= row@.take(c as int));
                    assert(row@.take(c + 1).last() == row@[c as int]);
                }
                let hit = match row[c] {
                    Option::Some(p) => p == player,
                    Option::None => false,
                };
                if hit {
                    count += 1;
                }
                c += 1;
            }
            proof {
                assert(row@.take(BOARD_SIDE as int) =~= row@);
            }
            r += 1;
        }
        count
    }

    /// The legal moves of `to_move`, scanned row by row.
    pub fn get_valid_moves(&self, board: &Vec<Vec<BoardCell>>, to_move: Player) -> (moves: Vec<
        (usize, usize),
    >)
        requires
            dims8(board_view(board@)),
        ensures
            moves@ == spec_othello_moves(board_view(board@), to_move),
    {
        let ghost b = board_view(board@);
        let mut moves: Vec<(usize, usize)> = Vec::new();
        let mut r: usize = 0;
        while r < 8
            invariant
                r <= 8,
                b == board_view(board@),
                dims8(b),
                moves@ == othello_moves_upto(b, to_move, r as nat),
            decreases 8 - r,
        {
            let mut c: usize = 0;
            while c < 8
                invariant
                    c <= 8,
                    r < 8,
                    b == board_view(board@),
                    dims8(b),
                    moves@ == othello_moves_upto(b, to_move, r as nat) + othello_row_upto(
                        b,
                        to_move,
                        r,
                        c as nat,
                    ),
                decreases 8 - c,
            {
                if OthelloSpec::is_valid_move(board, r, c, to_move) {
                    moves.push((r, c));
                }
                proof {
                    if spec_is_valid_move(b, r as int, c as int, to_move) {
                        assert(moves@ =~= othello_moves_upto(b, to_move, r as nat)
                            + othello_row_upto(b, to_move, r, (c + 1) as nat));
                    } else {
                        assert(moves@ =~= othello_moves_upto(b, to_move, r as nat)
                            + othello_row_upto(b, to_move, r, (c + 1) as nat));
                    }
                }
                c += 1;
            }
            proof {
                assert(moves@ =~= othello_moves_upto(b, to_move, (r + 1) as nat));
            }
            r += 1;
        }
        moves
    }

    /// The opponent in this two-sided game.
    pub open spec fn spec_opponent(player: Player) -> Player {
        if player == Player::Player0 {
            Player::Player1
        } else {
            Player::Player0
        }
    }

    /// Win for `player`: the player to move has no legal move left and
    /// `player` holds more disks than the opponent.
    pub fn is_win(&self, board: &Vec<Vec<BoardCell>>, to_move: Player, player: Player) -> (res:
        bool)
        requires
            dims8(board_view(board@)),
        ensures
            res == (spec_othello_moves(board_view(board@), to_move).len() == 0 && spec_disc_count(
                board_view(board@),
                player,
            ) > spec_disc_count(board_view(board@), OthelloSpec::spec_opponent(player))),
    {
        let opponent = if player.to_usize() == 0 {
            Player::Player1
        } else {
            Player::Player0
        };
        let moves = self.get_valid_moves(board, to_move);
        moves.len() == 0 && self.get_player_disc_count(board, player) > self.get_player_disc_count(
            board,
            opponent,
        )
    }

    /// Tie: the player to move has no legal move left and both sides hold
    /// the same number of disks.
    pub fn is_tie(&self, board: &Vec<Vec<BoardCell>>, to_move: Player) -> (res: bool)
        requires
            dims8(board_view(board@)),
        ensures
            res == (spec_othello_moves(board_view(board@), to_move).len() == 0 && spec_disc_count(
                board_view(board@),
                Player::Player0,
            ) == spec_disc_count(board_view(board@), Player::Player1)),
    {
        let moves = self.get_valid_moves(board, to_move);
        moves.len() == 0 && self.get_player_disc_count(board, Player::Player0)
            == self.get_player_disc_count(board, Player::Player1)
    }

    /// The starting board: two disks per side crossed in the centre.
    pub fn get_initial_board(&self) -> (board: Vec<Vec<BoardCell>>)
        ensures
            dims8(board_view(board@)),
            board_view(board@) == spec_othello_initial(),
    {
        let mut board: Vec<Vec<BoardCell>> = Vec::new();
        let mut r: usize = 0;
        while r < 8
            invariant
                r <= 8,
                board@.len() == r,
                forall|r2: int| 0 <= r2 < r ==> (#[trigger] board_view(board@)[r2])
                    == spec_othello_initial()[r2],
            decreases 8 - r,
        {
            let mut row: Vec<BoardCell> = Vec::new();
            let mut c: usize = 0;
            while c < 8
                invariant
                    c <= 8,
                    r < 8,
                    row@.len() == c,
                    forall|c2: int| 0 <= c2 < c ==> row@[c2] == spec_othello_initial()[r as int][
                        c2
                    ],
                decreases 8 - c,
            {
                if (r == 3 && c == 3) || (r == 4 && c == 4) {
                    row.push(Option::Some(Player::Player0));
                } else if (r == 3 && c == 4) || (r == 4 && c == 3) {
                    row.push(Option::Some(Player::Player1));
                } else {
                    row.push(Option::None);
                }
                c += 1;
            }
            proof {
                assert(row@ =~= spec_othello_initial()[r as int]);
            }
            let ghost prev = board@;
            board.push(row);
            proof {
                assert forall|r2: int| 0 <= r2 < r + 1 implies (#[trigger] board_view(board@)[r2])
                    == spec_othello_initial()[r2] by {
                    assert(board_view(board@)[r2] == board@[r2]@);
                    if r2 < r {
                        assert(board@[r2] == prev[r2]);
                        assert(board_view(prev)[r2] == prev[r2]@);
                    }
                }
            }
            r += 1;
        }
        proof {
            assert(board_view(board@) =~= spec_othello_initial());
        }
        board
    }

    pub fn get_initial_to_move(&self) -> (p: Player)
        ensures
            p == Player::Player0,
    {
        Player::Player0
    }

    /// Apply a move: place the disk, then flip the enclosed runs. The new
    /// board is exactly the placed board with every enclosed opponent run
    /// turned over.
    pub fn transition(
        &self,
        state: &GameState,
        num_players: usize,
        move_row: usize,
        move_col: usize,
    ) -> (next: GameState)
        requires
            dims8(state.pos().board),
            move_row < BOARD_SIDE,
            move_col < BOARD_SIDE,
            0 <= state.to_move.spec_idx() < num_players,
            num_players <= MAX_PLAYERS,
            state.move_num < usize::MAX,
        ensures
            next.pos().to_move.spec_idx() == (state.pos().to_move.spec_idx() + 1) % (
            num_players as int),
            next.pos().move_num == state.pos().move_num + 1,
            next.prev_state is None,
            dims8(next.pos().board),
            ({
                let placed = state.pos().board.update(
                    move_row as int,
                    state.pos().board[move_row as int].update(
                        move_col as int,
                        Some(state.pos().to_move),
                    ),
                );
                forall|r: int, c: int|
                    0 <= r < BOARD_SIDE && 0 <= c < BOARD_SIDE ==> next.pos().board[r][c] == (
                    if spec_flipped(
                        placed,
                        move_row as int,
                        move_col as int,
                        state.pos().to_move,
                        r,
                        c,
                    ) {
                        Some(state.pos().to_move)
                    } else {
                        placed[r][c]
                    })
            }),
    {
        let ghost b = state.pos().board;
        let current = state.get_to_move();
        let mut board_copy = crate::game::clone_board(state.get_board());
        proof {
            assert(b[move_row as int] == state.board@[move_row as int]@);
            assert(board_view(board_copy@)[move_row as int] == board_copy@[move_row as int]@);
        }
        let ghost before = board_view(board_copy@);
        board_copy[move_row][move_col] = Option::Some(current);
        proof {
            assert forall|r2: int| 0 <= r2 < b.len() implies (#[trigger] board_view(board_copy@)[
            r2]) =~= (if r2 == move_row {
                before[r2].update(move_col as int, Some(state.pos().to_move))
            } else {
                before[r2]
            }) by {}
            assert(board_view(board_copy@) =~~= b.update(
                move_row as int,
                b[move_row as int].update(move_col as int, Some(state.pos().to_move)),
            ));
        }
        OthelloSpec::flip_discs(&mut board_copy, move_row, move_col, current);
        let next_idx = (current.to_usize() + 1) % num_players;
        GameState::new(
            Player::from_index(next_idx),
            state.get_move_num() + 1,
            board_copy,
        )
    }
}

/// Collect the run of opponent disks in one direction, provided it ends at
/// one of `player`'s own disks; an empty vector otherwise. The collected
/// cells are exactly the direction's enclosed run.
fn collect_flips(
    board: &Vec<Vec<BoardCell>>,
    row: usize,
    col: usize,
    dr: i32,
    dc: i32,
    player: Player,
) -> (flips: Vec<(usize, usize)>)
    requires
        dims8(board_view(board@)),
        row < BOARD_SIDE,
        col < BOARD_SIDE,
        -1 <= dr <= 1,
        -1 <= dc <= 1,
    ensures
        pairs_view(flips@) == dir_flip_run(
            board_view(board@),
            row as int,
            col as int,
            dr as int,
            dc as int,
            player,
        ),
        forall|k: int|
            0 <= k < flips@.len() ==> (#[trigger] flips@[k]).0 < BOARD_SIDE && flips@[k].1
                < BOARD_SIDE && board_view(board@)[flips@[k].0 as int][flips@[k].1 as int] is Some
                && board_view(board@)[flips@[k].0 as int][flips@[k].1 as int] != Some(player),
{
    let ghost b = board_view(board@);
    let mut pieces: Vec<(usize, usize)> = Vec::new();
    let mut r: i32 = row as i32 + dr;
    let mut c: i32 = col as i32 + dc;
    let mut fuel: usize = BOARD_SIDE + 1;
    proof {
        assert(pairs_view(pieces@) =~= Seq::<(int, int)>::empty());
    }
    while fuel > 0 && r >= 0 && r < 8 && c >= 0 && c < 8
        invariant
            b == board_view(board@),
            dims8(b),
            -1 <= dr <= 1,
            -1 <= dc <= 1,
            -2 <= r <= 9,
            -2 <= c <= 9,
            fuel <= BOARD_SIDE + 1,
            dir_flip_run(b, row as int, col as int, dr as int, dc as int, player) == walk_flips(
                b,
                r as int,
                c as int,
                dr as int,
                dc as int,
                player,
                pairs_view(pieces@),
                fuel as nat,
            ),
            forall|k: int|
                0 <= k < pieces@.len() ==> (#[trigger] pieces@[k]).0 < BOARD_SIDE && pieces@[k].1
                    < BOARD_SIDE && b[pieces@[k].0 as int][pieces@[k].1 as int] is Some && b[
                    pieces@[k].0 as int
                ][pieces@[k].1 as int] != Some(player),
        decreases fuel,
    {
        proof {
            assert(b[r as int] == board@[r as int]@);
        }
        let cell = board[r as usize][c as usize];
        match cell {
            Option::None => {
                let empty_run: Vec<(usize, usize)> = Vec::new();
                proof {
                    assert(pairs_view(empty_run@) =~= Seq::<(int, int)>::empty());
                }
                return empty_run;
            },
            Option::Some(q) => {
                if q == player {
                    return pieces;
                }
                let ghost before = pairs_view(pieces@);
                pieces.push((r as usize, c as usize));
                proof {
                    assert(pairs_view(pieces@) =~= before.push((r as int, c as int)));
                }
                r = r + dr;
                c = c + dc;
                fuel = fuel - 1;
            },
        }
    }
    let empty_run: Vec<(usize, usize)> = Vec::new();
    proof {
        assert(pairs_view(empty_run@) =~= Seq::<(int, int)>::empty());
    }
    empty_run
}

/// Turn every cell of the run into `player`'s disk; no other cell changes.
fn apply_run(board: &mut Vec<Vec<BoardCell>>, run: &Vec<(usize, usize)>, player: Player)
    requires
        dims8(board_view(old(board)@)),
        forall|k: int|
            0 <= k < run@.len() ==> (#[trigger] run@[k]).0 < BOARD_SIDE && run@[k].1 < BOARD_SIDE,
    ensures
        dims8(board_view(final(board)@)),
        forall|r: int, c: int|
            0 <= r < BOARD_SIDE && 0 <= c < BOARD_SIDE ==> board_view(final(board)@)[r][c] == (
            if pairs_view(run@).contains((r, c)) {
                Some(player)
            } else {
                board_view(old(board)@)[r][c]
            }),
{
    let ghost b0 = board_view(board@);
    let mut k: usize = 0;
    while k < run.len()
        invariant
            k <= run@.len(),
            dims8(board_view(board@)),
            forall|k2: int|
                0 <= k2 < run@.len() ==> (#[trigger] run@[k2]).0 < BOARD_SIDE && run@[k2].1
                    < BOARD_SIDE,
            forall|r: int, c: int|
                0 <= r < BOARD_SIDE && 0 <= c < BOARD_SIDE ==> board_view(board@)[r][c] == (
                if exists|i: int| 0 <= i < k && #[trigger] pairs_view(run@)[i] == (r, c) {
                    Some(player)
                } else {
                    b0[r][c]
                }),
        decreases run@.len() - k,
    {
        let (fr, fc) = run[k];
        let ghost before = board_view(board@);
        proof {
            assert(board_view(board@)[fr as int] == board@[fr as int]@);
        }
        board[fr][fc] = Option::Some(player);
        proof {
            assert forall|r2: int| 0 <= r2 < BOARD_SIDE implies (#[trigger] board_view(board@)[
            r2]) =~= (if r2 == fr {
                before[r2].update(fc as int, Some(player))
            } else {
                before[r2]
            }) by {}
            assert forall|r: int, c: int|
                0 <= r < BOARD_SIDE && 0 <= c < BOARD_SIDE implies board_view(board@)[r][c] == (
            if exists|i: int| 0 <= i < k + 1 && #[trigger] pairs_view(run@)[i] == (r, c) {
                Some(player)
            } else {
                b0[r][c]
            }) by {
                if r == fr && c == fc {
                    assert(pairs_view(run@)[k as int] == (r, c));
                } else {
                    if exists|i: int| 0 <= i < k + 1 && #[trigger] pairs_view(run@)[i] == (r, c) {
                        let i = choose|i: int|
                            0 <= i < k + 1 && #[trigger] pairs_view(run@)[i] == (r, c);
                        assert(i < k);
                        assert(exists|i2: int|
                            0 <= i2 < k && #[trigger] pairs_view(run@)[i2] == (r, c));
                    }
                }
            }
        }
        k += 1;
    }
    proof {
        assert forall|r: int, c: int|
            0 <= r < BOARD_SIDE && 0 <= c < BOARD_SIDE implies board_view(board@)[r][c] == (
        if pairs_view(run@).contains((r, c)) {
            Some(player)
        } else {
            b0[r][c]
        }) by {
            if pairs_view(run@).contains((r, c)) {
                let i = choose|i: int|
                    0 <= i < pairs_view(run@).len() && pairs_view(run@)[i] == (r, c);
                assert(pairs_view(run@)[i] == (r, c));
            }
        }
    }
}

/// The legal moves found on row `r` among the first `c` columns.
pub open spec fn othello_row_upto(
    b: Seq<Seq<BoardCell>>,
    player: Player,
    r: usize,
    c: nat,
) -> Seq<(usize, usize)>
    decreases c,
{
    if c == 0 {
        Seq::empty()
    } else {
        othello_row_upto(b, player, r, (c - 1) as nat) + if spec_is_valid_move(
            b,
            r as int,
            c - 1,
            player,
        ) {
            seq![(r, (c - 1) as usize)]
        } else {
            Seq::empty()
        }
    }
}

/// The legal moves found on the first `r` rows.
pub open spec fn othello_moves_upto(b: Seq<Seq<BoardCell>>, player: Player, r: nat) -> Seq<
    (usize, usize),
>
    decreases r,
{
    if r == 0 {
        Seq::empty()
    } else {
        othello_moves_upto(b, player, (r - 1) as nat) + othello_row_upto(
            b,
            player,
            (r - 1) as usize,
            BOARD_SIDE as nat,
        )
    }
}

/// All legal moves of `player`, row by row.
pub open spec fn spec_othello_moves(b: Seq<Seq<BoardCell>>, player: Player) -> Seq<(usize, usize)> {
    othello_moves_upto(b, player, BOARD_SIDE as nat)
}

/// The number of `player`'s disks on the first `r` rows.
pub open spec fn disc_upto(b: Seq<Seq<BoardCell>>, player: Player, r: nat) -> int
    decreases r,
{
    if r == 0 {
        0
    } else {
        disc_upto(b, player, (r - 1) as nat) + count_matching(b[r - 1], player)
    }
}

/// The number of `player`'s disks on the whole board.
pub open spec fn spec_disc_count(b: Seq<Seq<BoardCell>>, player: Player) -> int {
    disc_upto(b, player, BOARD_SIDE as nat)
}

pub proof fn lemma_disc_upto_bounds(b: Seq<Seq<BoardCell>>, player: Player, r: nat)
    requires
        dims8(b),
        r <= BOARD_SIDE,
    ensures
        0 <= disc_upto(b, player, r) <= 8 * r,
    decreases r,
{
    if r > 0 {
        lemma_disc_upto_bounds(b, player, (r - 1) as nat);
        crate::pushupfour::lemma_count_bounds(b[r - 1], player);
    }
}

/// The starting position: two disks per side crossed in the centre.
pub open spec fn spec_othello_initial() -> Seq<Seq<BoardCell>> {
    Seq::new(
        BOARD_SIDE as nat,
        |r: int|
            Seq::new(
                BOARD_SIDE as nat,
                |c: int|
                    if (r == 3 && c == 3) || (r == 4 && c == 4) {
                        Some(Player::Player0)
                    } else if (r == 3 && c == 4) || (r == 4 && c == 3) {
                        Some(Player::Player1)
                    } else {
                        Option::<Player>::None
                    },
            ),
    )
}

} // verus!
