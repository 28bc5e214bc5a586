//! Board scanning for n-in-a-row games: sequence, row, column and diagonal
//! win tests over a grid of cells.

use vstd::prelude::*;

use crate::game::GameState;
use crate::game_elements::{board_view, player_of, BoardCell, Player};

verus! {

/// How many cells of a sequence hold the given player's stone.
pub open spec fn count_matching(s: Seq<BoardCell>, player: Player) -> int
    decreases s.len(),
{
    if s.len() == 0 {
        0
    } else {
        count_matching(s.drop_last(), player) + if s.last() == Some(player) {
            1int
        } else {
            0int
        }
    }
}

pub proof fn lemma_count_bounds(s: Seq<BoardCell>, player: Player)
    ensures
        0 <= count_matching(s, player) <= s.len(),
    decreases s.len(),
{
    if s.len() > 0 {
        lemma_count_bounds(s.drop_last(), player);
    }
}

/// A sequence is matched in full exactly when its count reaches its length.
pub proof fn lemma_count_full(s: Seq<BoardCell>, player: Player)
    ensures
        (count_matching(s, player) >= s.len()) <==> (forall|i: int|
            0 <= i < s.len() ==> s[i] == Some(player)),
    decreases s.len(),
{
    lemma_count_bounds(s, player);
    if s.len() > 0 {
        lemma_count_full(s.drop_last(), player);
        lemma_count_bounds(s.drop_last(), player);
        assert forall|i: int| 0 <= i < s.len() - 1 implies s.drop_last()[i] == s[i] by {}
    }
}

/// A rectangular board: every row has the width of the first.
pub open spec fn board_rect(b: Seq<Seq<BoardCell>>) -> bool {
    forall|r: int| 0 <= r < b.len() ==> (#[trigger] b[r]).len() == b[0].len()
}

/// `n` consecutive stones of `player` along a row, starting at `(r, c)`.
pub open spec fn row_win_at(b: Seq<Seq<BoardCell>>, r: int, c: int, n: int, player: Player) -> bool {
    forall|cc: int| c <= cc < c + n ==> #[trigger] b[r][cc] == Some(player)
}

pub open spec fn spec_row_win(b: Seq<Seq<BoardCell>>, player: Player, n: int) -> bool {
    exists|r: int, c: int|
        0 <= r < b.len() && 0 <= c && c + n <= b[r].len() && row_win_at(b, r, c, n, player)
}

/// `n` consecutive stones of `player` along a column, starting at `(r, c)`.
pub open spec fn col_win_at(b: Seq<Seq<BoardCell>>, r: int, c: int, n: int, player: Player) -> bool {
    forall|rr: int| r <= rr < r + n ==> #[trigger] b[rr][c] == Some(player)
}

pub open spec fn spec_col_win(b: Seq<Seq<BoardCell>>, player: Player, n: int) -> bool {
    exists|r: int, c: int|
        0 <= r && r + n <= b.len() && 0 <= c < b[0].len() && col_win_at(b, r, c, n, player)
}

/// `n` consecutive stones of `player` along a falling diagonal from `(r, c)`.
pub open spec fn diag_win_at(b: Seq<Seq<BoardCell>>, r: int, c: int, n: int, player: Player) -> bool {
    forall|rr: int, cc: int| r <= rr < r + n && cc == c + (rr - r) ==> #[trigger] b[rr][cc]
        == Some(player)
}

pub open spec fn spec_diag_win(b: Seq<Seq<BoardCell>>, player: Player, n: int) -> bool {
    exists|r: int, c: int|
        0 <= r && r + n <= b.len() && 0 <= c && c + n <= b[0].len() && diag_win_at(
            b,
            r,
            c,
            n,
            player,
        )
}

/// `n` consecutive stones of `player` along a rising diagonal: starting at
/// `(r, c)` and moving up-right means moving down-left here, row `r + k`,
/// column `c - k`.
pub open spec fn counter_diag_win_at(
    b: Seq<Seq<BoardCell>>,
    r: int,
    c: int,
    n: int,
    player: Player,
) -> bool {
    forall|rr: int, cc: int| r <= rr < r + n && cc == c - (rr - r) ==> #[trigger] b[rr][cc]
        == Some(player)
}

pub open spec fn spec_counter_diag_win(b: Seq<Seq<BoardCell>>, player: Player, n: int) -> bool {
    exists|r: int, c: int|
        0 <= r && r + n <= b.len() && n - 1 <= c < b[0].len() && counter_diag_win_at(
            b,
            r,
            c,
            n,
            player,
        )
}

/// A win along any line: row, column, falling or rising diagonal.
pub open spec fn spec_line_win(b: Seq<Seq<BoardCell>>, player: Player, n: int) -> bool {
    spec_row_win(b, player, n) || spec_col_win(b, player, n) || spec_diag_win(b, player, n)
        || spec_counter_diag_win(b, player, n)
}

/// Whether the sequence holds at least `n_in_a_row` stones of `player`.
pub fn is_sequence_win(sequence: &Vec<BoardCell>, player: Player, n_in_a_row: usize) -> (r: bool)
    ensures
        r == (count_matching(sequence@, player) >= n_in_a_row),
{
    let mut count: usize = 0;
    let mut i: usize = 0;
    while i < sequence.len()
        invariant
            i <= sequence@.len(),
            count <= i,
            count == count_matching(sequence@.take(i as int), player),
        decreases sequence@.len() - i,
    {
        let hit = match sequence[i] {
            Option::Some(p) => p == player,
            Option::None => false,
        };
        proof {
            assert(sequence@.take(i + 1).drop_last() =~= sequence@.take(i as int));
            assert(sequence@.take(i + 1).last() == sequence@[i as int]);
        }
        if hit {
            count += 1;
        }
        i += 1;
    }
    proof {
        assert(sequence@.take(sequence@.len() as int) =~= sequence@);
    }
    count >= n_in_a_row
}

/// Whether `player` has `n_in_a_row` consecutive stones in some row.
pub fn is_row_win(board: &Vec<Vec<BoardCell>>, player: Player, n_in_a_row: usize) -> (res: bool)
    ensures
        res == spec_row_win(board_view(board@), player, n_in_a_row as int),
{
    let ghost b = board_view(board@);
    let ghost n = n_in_a_row as int;
    let mut r: usize = 0;
    while r < board.len()
        invariant
            r <= board@.len(),
            b == board_view(board@),
            n == n_in_a_row as int,
            forall|r2: int, c2: int|
                0 <= r2 < r && 0 <= c2 && c2 + n <= b[r2].len() ==> !row_win_at(
                    b,
                    r2,
                    c2,
                    n,
                    player,
                ),
        decreases board@.len() - r,
    {
        let row = &board[r];
        if n_in_a_row <= row.len() {
            let mut c: usize = 0;
            while c <= row.len() - n_in_a_row
                invariant
                    c <= row.len() - n_in_a_row + 1,
                    n_in_a_row <= row.len(),
                    row == board@[r as int],
                    r < board@.len(),
                    b == board_view(board@),
                    n == n_in_a_row as int,
                    forall|c2: int| 0 <= c2 < c ==> !row_win_at(b, r as int, c2, n, player),
                decreases row.len() - n_in_a_row - c + 1,
            {
                let mut w: Vec<BoardCell> = Vec::new();
                let mut k: usize = 0;
                while k < n_in_a_row
                    invariant
                        k <= n_in_a_row,
                        c + n_in_a_row <= row@.len(),
                        c + n_in_a_row <= usize::MAX,
                        row == board@[r as int],
                        r < board@.len(),
                        b == board_view(board@),
                        w@.len() == k,
                        forall|k2: int| 0 <= k2 < k ==> w@[k2] == b[r as int][c + k2],
                    decreases n_in_a_row - k,
                {
                    w.push(row[c + k]);
                    k += 1;
                }
                if is_sequence_win(&w, player, n_in_a_row) {
                    proof {
                        lemma_count_full(w@, player);
                        assert forall|cc: int| c <= cc < c + n implies b[r as int][cc] == Some(
                            player,
                        ) by {
                            assert(w@[cc - c] == b[r as int][c + (cc - c)]);
                        }
                        assert(row_win_at(b, r as int, c as int, n, player));
                    }
                    return true;
                }
                proof {
                    lemma_count_full(w@, player);
                    assert(!row_win_at(b, r as int, c as int, n, player)) by {
                        if row_win_at(b, r as int, c as int, n, player) {
                            assert forall|k2: int| 0 <= k2 < n implies w@[k2] == Some(player) by {
                                assert(b[r as int][c + k2] == Some(player));
                            }
                        }
                    }
                }
                c += 1;
            }
        }
        r += 1;
    }
    proof {
        assert(!spec_row_win(b, player, n));
    }
    false
}

/// Whether `player` has `n_in_a_row` consecutive stones in some column.
pub fn is_col_win(board: &Vec<Vec<BoardCell>>, player: Player, n_in_a_row: usize) -> (res: bool)
    requires
        board_rect(board_view(board@)),
        1 <= n_in_a_row,
    ensures
        res == spec_col_win(board_view(board@), player, n_in_a_row as int),
{
    let ghost b = board_view(board@);
    let ghost n = n_in_a_row as int;
    if board.len() == 0 || n_in_a_row > board.len() {
        proof {
            assert(!spec_col_win(b, player, n));
        }
        return false;
    }
    let num_cols = board[0].len();
    let num_rows = board.len();
    let mut c: usize = 0;
    while c < num_cols
        invariant
            c <= num_cols,
            b == board_view(board@),
            n == n_in_a_row as int,
            board_rect(b),
            num_cols == b[0].len(),
            num_rows == b.len(),
            n_in_a_row <= num_rows,
            forall|r2: int, c2: int|
                0 <= r2 && r2 + n <= b.len() && 0 <= c2 < c ==> !col_win_at(b, r2, c2, n, player),
        decreases num_cols - c,
    {
        let mut col_elems: Vec<BoardCell> = Vec::new();
        let mut i: usize = 0;
        while i < num_rows
            invariant
                i <= num_rows,
                b == board_view(board@),
                board_rect(b),
                num_rows == b.len(),
                num_cols == b[0].len(),
                c < num_cols,
                col_elems@.len() == i,
                forall|k2: int| 0 <= k2 < i ==> col_elems@[k2] == b[k2][c as int],
            decreases num_rows - i,
        {
            let row = &board[i];
            proof {
                assert(b[i as int] == board@[i as int]@);
            }
            col_elems.push(row[c]);
            i += 1;
        }
        let mut r: usize = 0;
        while r <= num_rows - n_in_a_row
            invariant
                r <= num_rows - n_in_a_row + 1,
                n_in_a_row <= num_rows,
                b == board_view(board@),
                n == n_in_a_row as int,
                num_rows == b.len(),
                num_cols == b[0].len(),
                c < num_cols,
                col_elems@.len() == num_rows,
                forall|k2: int| 0 <= k2 < num_rows ==> col_elems@[k2] == b[k2][c as int],
                forall|r2: int| 0 <= r2 < r ==> !col_win_at(b, r2, c as int, n, player),
            decreases num_rows - n_in_a_row - r + 1,
        {
            let mut w: Vec<BoardCell> = Vec::new();
            let mut k: usize = 0;
            while k < n_in_a_row
                invariant
                    k <= n_in_a_row,
                    r + n_in_a_row <= col_elems@.len(),
                    col_elems@.len() == num_rows,
                    forall|k2: int| 0 <= k2 < num_rows ==> col_elems@[k2] == b[k2][c as int],
                    w@.len() == k,
                    forall|k2: int| 0 <= k2 < k ==> w@[k2] == b[r + k2][c as int],
                decreases n_in_a_row - k,
            {
                w.push(col_elems[r + k]);
                k += 1;
            }
            if is_sequence_win(&w, player, n_in_a_row) {
                proof {
                    lemma_count_full(w@, player);
                    assert forall|rr: int| r <= rr < r + n implies b[rr][c as int] == Some(
                        player,
                    ) by {
                        assert(w@[rr - r] == b[r + (rr - r)][c as int]);
                    }
                    assert(col_win_at(b, r as int, c as int, n, player));
                }
                return true;
            }
            proof {
                lemma_count_full(w@, player);
                assert(!col_win_at(b, r as int, c as int, n, player)) by {
                    if col_win_at(b, r as int, c as int, n, player) {
                        assert forall|k2: int| 0 <= k2 < n implies w@[k2] == Some(player) by {
                            assert(b[r + k2][c as int] == Some(player));
                        }
                    }
                }
            }
            r += 1;
        }
        c += 1;
    }
    proof {
        assert(!spec_col_win(b, player, n));
    }
    false
}

/// Whether `player` has `n_in_a_row` consecutive stones on some falling or
/// rising diagonal.
pub fn is_diag_win(board: &Vec<Vec<BoardCell>>, player: Player, n_in_a_row: usize) -> (res: bool)
    requires
        board_rect(board_view(board@)),
        1 <= n_in_a_row,
    ensures
        res == (spec_diag_win(board_view(board@), player, n_in_a_row as int)
            || spec_counter_diag_win(board_view(board@), player, n_in_a_row as int)),
{
    let ghost b = board_view(board@);
    let ghost n = n_in_a_row as int;
    if board.len() == 0 || n_in_a_row > board.len() {
        proof {
            assert(!spec_diag_win(b, player, n));
            assert(!spec_counter_diag_win(b, player, n));
        }
        return false;
    }
    let num_cols = board[0].len();
    let num_rows = board.len();

    // Falling diagonals.
    if n_in_a_row <= num_cols {
        let mut i: usize = 0;
        while i <= num_rows - n_in_a_row
            invariant
                i <= num_rows - n_in_a_row + 1,
                n_in_a_row <= num_rows,
                n_in_a_row <= num_cols,
                1 <= n_in_a_row,
                b == board_view(board@),
                n == n_in_a_row as int,
                board_rect(b),
                num_rows == b.len(),
                num_cols == b[0].len(),
                forall|r2: int, c2: int|
                    0 <= r2 < i && 0 <= c2 && c2 + n <= num_cols ==> !diag_win_at(
                        b,
                        r2,
                        c2,
                        n,
                        player,
                    ),
            decreases num_rows - n_in_a_row - i + 1,
        {
            let mut j: usize = 0;
            while j <= num_cols - n_in_a_row
                invariant
                    j <= num_cols - n_in_a_row + 1,
                    i + n_in_a_row <= num_rows,
                    n_in_a_row <= num_cols,
                    1 <= n_in_a_row,
                    b == board_view(board@),
                    n == n_in_a_row as int,
                    board_rect(b),
                    num_rows == b.len(),
                    num_cols == b[0].len(),
                    forall|c2: int| 0 <= c2 < j ==> !diag_win_at(b, i as int, c2, n, player),
                decreases num_cols - n_in_a_row - j + 1,
            {
                let mut w: Vec<BoardCell> = Vec::new();
                let mut k: usize = 0;
                while k < n_in_a_row
                    invariant
                        k <= n_in_a_row,
                        i + n_in_a_row <= num_rows,
                        j + n_in_a_row <= num_cols,
                        b == board_view(board@),
                        board_rect(b),
                        num_rows == b.len(),
                        num_cols == b[0].len(),
                        w@.len() == k,
                        forall|k2: int| 0 <= k2 < k ==> w@[k2] == b[i + k2][j + k2],
                    decreases n_in_a_row - k,
                {
                    let row = &board[i + k];
                    proof {
                        assert(b[(i + k) as int] == board@[(i + k) as int]@);
                    }
                    w.push(row[j + k]);
                    k += 1;
                }
                if is_sequence_win(&w, player, n_in_a_row) {
                    proof {
                        lemma_count_full(w@, player);
                        assert forall|rr: int, cc: int|
                            i <= rr < i + n && cc == j + (rr - i) implies b[rr][cc] == Some(
                            player,
                        ) by {
                            assert(w@[rr - i] == b[i + (rr - i)][j + (rr - i)]);
                        }
                        assert(diag_win_at(b, i as int, j as int, n, player));
                    }
                    return true;
                }
                proof {
                    lemma_count_full(w@, player);
                    assert(!diag_win_at(b, i as int, j as int, n, player)) by {
                        if diag_win_at(b, i as int, j as int, n, player) {
                            assert forall|k2: int| 0 <= k2 < n implies w@[k2] == Some(player) by {
                                assert(b[i + k2][j + k2] == Some(player));
                            }
                        }
                    }
                }
                j += 1;
            }
            i += 1;
        }
    }

    // Rising diagonals.
    if n_in_a_row <= num_cols {
        let mut i: usize = 0;
        while i <= num_rows - n_in_a_row
            invariant
                i <= num_rows - n_in_a_row + 1,
                n_in_a_row <= num_rows,
                n_in_a_row <= num_cols,
                1 <= n_in_a_row,
                b == board_view(board@),
                n == n_in_a_row as int,
                board_rect(b),
                num_rows == b.len(),
                num_cols == b[0].len(),
                !spec_diag_win(b, player, n),
                forall|r2: int, c2: int|
                    0 <= r2 < i && n - 1 <= c2 < num_cols ==> !counter_diag_win_at(
                        b,
                        r2,
                        c2,
                        n,
                        player,
                    ),
            decreases num_rows - n_in_a_row - i + 1,
        {
            let mut j: usize = n_in_a_row - 1;
            while j < num_cols
                invariant
                    n_in_a_row - 1 <= j <= num_cols,
                    i + n_in_a_row <= num_rows,
                    n_in_a_row <= num_cols,
                    1 <= n_in_a_row,
                    b == board_view(board@),
                    n == n_in_a_row as int,
                    board_rect(b),
                    num_rows == b.len(),
                    num_cols == b[0].len(),
                    forall|c2: int| n - 1 <= c2 < j ==> !counter_diag_win_at(
                        b,
                        i as int,
                        c2,
                        n,
                        player,
                    ),
                decreases num_cols - j,
            {
                let mut w: Vec<BoardCell> = Vec::new();
                let mut k: usize = 0;
                while k < n_in_a_row
                    invariant
                        k <= n_in_a_row,
                        i + n_in_a_row <= num_rows,
                        n_in_a_row - 1 <= j < num_cols,
                        b == board_view(board@),
                        board_rect(b),
                        num_rows == b.len(),
                        num_cols == b[0].len(),
                        w@.len() == k,
                        forall|k2: int| 0 <= k2 < k ==> w@[k2] == b[i + k2][j - k2],
                    decreases n_in_a_row - k,
                {
                    let row = &board[i + k];
                    proof {
                        assert(b[(i + k) as int] == board@[(i + k) as int]@);
                    }
                    w.push(row[j - k]);
                    k += 1;
                }
                if is_sequence_win(&w, player, n_in_a_row) {
                    proof {
                        lemma_count_full(w@, player);
                        assert forall|rr: int, cc: int|
                            i <= rr < i + n && cc == j - (rr - i) implies b[rr][cc] == Some(
                            player,
                        ) by {
                            assert(w@[rr - i] == b[i + (rr - i)][j - (rr - i)]);
                        }
                        assert(counter_diag_win_at(b, i as int, j as int, n, player));
                    }
                    return true;
                }
                proof {
                    lemma_count_full(w@, player);
                    assert(!counter_diag_win_at(b, i as int, j as int, n, player)) by {
                        if counter_diag_win_at(b, i as int, j as int, n, player) {
                            assert forall|k2: int| 0 <= k2 < n implies w@[k2] == Some(player) by {
                                assert(b[i + k2][j - k2] == Some(player));
                            }
                        }
                    }
                }
                j += 1;
            }
            i += 1;
        }
    }
    proof {
        assert(!spec_diag_win(b, player, n));
        assert(!spec_counter_diag_win(b, player, n));
    }
    false
}

/// Whether `player` has a winning line anywhere on the board.
pub fn is_win(board: &Vec<Vec<BoardCell>>, player: Player, n_in_a_row: usize) -> (res: bool)
    requires
        board_rect(board_view(board@)),
        1 <= n_in_a_row,
    ensures
        res == spec_line_win(board_view(board@), player, n_in_a_row as int),
{
    is_row_win(board, player, n_in_a_row) || is_col_win(board, player, n_in_a_row) || is_diag_win(
        board,
        player,
        n_in_a_row,
    )
}

/// How many of the first `i` players have a winning line on the board.
pub open spec fn winners_upto(b: Seq<Seq<BoardCell>>, n_in_a_row: int, i: int) -> int
    decreases i,
{
    if i <= 0 {
        0
    } else {
        winners_upto(b, n_in_a_row, i - 1) + if spec_line_win(
            b,
            crate::game_elements::player_of(i - 1),
            n_in_a_row,
        ) {
            1int
        } else {
            0int
        }
    }
}

/// Whether more than one player holds a winning line at once (a tie by
/// simultaneous wins).
pub fn is_tie_after_transition(
    board: &Vec<Vec<BoardCell>>,
    num_players: usize,
    n_in_a_row: usize,
) -> (res: bool)
    requires
        board_rect(board_view(board@)),
        1 <= n_in_a_row,
        num_players <= crate::game_elements::MAX_PLAYERS,
    ensures
        res == (winners_upto(board_view(board@), n_in_a_row as int, num_players as int) > 1),
{
    let ghost b = board_view(board@);
    let ghost n = n_in_a_row as int;
    let mut winners: usize = 0;
    let mut p: usize = 0;
    while p < num_players
        invariant
            p <= num_players,
            num_players <= crate::game_elements::MAX_PLAYERS,
            b == board_view(board@),
            n == n_in_a_row as int,
            board_rect(b),
            1 <= n_in_a_row,
            winners <= p,
            winners == winners_upto(b, n, p as int),
        decreases num_players - p,
    {
        if is_win(board, Player::from_index(p), n_in_a_row) {
            winners += 1;
        }
        p += 1;
    }
    winners > 1
}


/// Move generation of the push-up game, as a capability of its own.
pub struct PushUpFourValidMoves;

impl PushUpFourValidMoves {
    pub fn get_valid_moves(&self, board: &Vec<Vec<BoardCell>>) -> (moves: Vec<(usize, usize)>)
        requires
            board@.len() >= 1,
        ensures
            moves@ == crate::push_up_four::column_moves_upto(
                board_view(board@)[0],
                (board@.len() - 1) as usize,
                board_view(board@)[0].len() as nat,
            ),
    {
        crate::push_up_four::column_valid_moves(board, board.len() - 1)
    }
}

/// The push-up transition, as a capability of its own.
pub struct PushUpFourTransitionFunction;

impl PushUpFourTransitionFunction {
    pub fn transition(&self, state: &GameState, num_players: usize, move_col: usize) -> (next:
        GameState)
        requires
            state.board@.len() >= 1,
            board_rect(state.pos().board),
            (move_col as int) < state.pos().board[0].len(),
            0 <= state.to_move.spec_idx() < num_players,
            num_players <= crate::game_elements::MAX_PLAYERS,
            state.move_num < usize::MAX,
        ensures
            next.pos() == (crate::game::Position {
                to_move: player_of((state.pos().to_move.spec_idx() + 1) % (num_players as int)),
                move_num: (state.pos().move_num + 1) as nat,
                board: crate::push_up_four::pushed_board(
                    state.pos().board,
                    move_col as int,
                    state.pos().to_move,
                ),
            }),
            next.prev_state is None,
    {
        let new_board = crate::push_up_four::push_chip(
            state.get_board(),
            move_col,
            state.get_to_move(),
        );
        let next_idx = (state.get_to_move().to_usize() + 1) % num_players;
        GameState::new(Player::from_index(next_idx), state.get_move_num() + 1, new_board)
    }
}

/// The n-in-a-row win test, as a capability of its own.
pub struct PushUpFourWinCondition;

impl PushUpFourWinCondition {
    pub fn is_win(&self, board: &Vec<Vec<BoardCell>>, player: Player, n_in_a_row: usize) -> (r:
        bool)
        requires
            board_rect(board_view(board@)),
            1 <= n_in_a_row,
        ensures
            r == spec_line_win(board_view(board@), player, n_in_a_row as int),
    {
        is_win(board, player, n_in_a_row)
    }
}

/// The tie test, as a capability of its own: the board has filled up, or
/// more than one player holds a winning line.
pub struct PushUpFourTieCondition;

impl PushUpFourTieCondition {
    pub fn is_tie(
        &self,
        board: &Vec<Vec<BoardCell>>,
        move_num: usize,
        num_players: usize,
        n_in_a_row: usize,
    ) -> (r: bool)
        requires
            board_rect(board_view(board@)),
            1 <= board@.len() <= 256,
            board_view(board@)[0].len() <= 256,
            1 <= n_in_a_row,
            num_players <= crate::game_elements::MAX_PLAYERS,
        ensures
            r == (move_num == board_view(board@).len() * board_view(board@)[0].len()
                || winners_upto(board_view(board@), n_in_a_row as int, num_players as int) > 1),
    {
        let num_rows = board.len();
        let row = &board[0];
        let num_cols = row.len();
        proof {
            assert(board_view(board@)[0] == board@[0]@);
            assert(num_rows * num_cols <= 65536) by (nonlinear_arith)
                requires
                    num_rows <= 256,
                    num_cols <= 256,
            ;
        }
        let total = num_rows * num_cols;
        move_num == total || is_tie_after_transition(board, num_players, n_in_a_row)
    }
}

} // verus!
