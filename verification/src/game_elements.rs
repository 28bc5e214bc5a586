//! Players, board cells, game status, and the score-vector model.

use vstd::prelude::*;

verus! {

/// Total number of utility shares distributed by every score vector.
/// Divisible by every supported player count, so a uniform split is exact.
pub open const SCORE_UNIT: u64 = 2520;

/// The engine supports up to this many players.
pub open const MAX_PLAYERS: usize = 4;

#[derive(PartialEq, Eq, Structural, Copy, Clone, Debug, Hash)]
pub enum Player {
    Player0,
    Player1,
    Player2,
    Player3,
}

impl Player {
    /// The index of this player in `[0, MAX_PLAYERS)`.
    pub open spec fn spec_idx(self) -> int {
        match self {
            Player::Player0 => 0,
            Player::Player1 => 1,
            Player::Player2 => 2,
            Player::Player3 => 3,
        }
    }

    pub fn to_usize(&self) -> (r: usize)
        ensures
            r == self.spec_idx(),
    {
        match self {
            Player::Player0 => 0,
            Player::Player1 => 1,
            Player::Player2 => 2,
            Player::Player3 => 3,
        }
    }

    /// The player with the given index.
    pub fn from_index(idx: usize) -> (p: Player)
        requires
            idx < MAX_PLAYERS,
        ensures
            p.spec_idx() == idx,
    {
        if idx == 0 {
            Player::Player0
        } else if idx == 1 {
            Player::Player1
        } else if idx == 2 {
            Player::Player2
        } else {
            Player::Player3
        }
    }
}

/// The player with the given index, as a spec-level function.
pub open spec fn player_of(idx: int) -> Player {
    if idx == 0 {
        Player::Player0
    } else if idx == 1 {
        Player::Player1
    } else if idx == 2 {
        Player::Player2
    } else {
        Player::Player3
    }
}

/// Status of a game, derived from the rules object's win and tie tests.
#[derive(PartialEq, Eq, Structural, Copy, Clone, Debug)]
pub enum GameStatus {
    Player0Win,
    Player1Win,
    Player2Win,
    Player3Win,
    Ongoing,
    Tie,
}

impl GameStatus {
    /// The status that reports a win for the player with the given index.
    pub open spec fn spec_win_of(idx: int) -> GameStatus {
        if idx == 0 {
            GameStatus::Player0Win
        } else if idx == 1 {
            GameStatus::Player1Win
        } else if idx == 2 {
            GameStatus::Player2Win
        } else {
            GameStatus::Player3Win
        }
    }
}

/// One cell of a board: empty, or occupied by a player.
pub type BoardCell = Option<Player>;

/// The mathematical content of a board: a grid of cells, row by row.
pub open spec fn board_view(b: Seq<Vec<BoardCell>>) -> Seq<Seq<BoardCell>> {
    b.map_values(|r: Vec<BoardCell>| r@)
}

/// The sum of the entries of a score vector, as an unbounded integer.
pub open spec fn sum_scores(s: Seq<u64>) -> int
    decreases s.len(),
{
    if s.len() == 0 {
        0
    } else {
        sum_scores(s.drop_last()) + s.last()
    }
}

/// A well-formed score vector: one entry of utility shares per player,
/// adding up to exactly `SCORE_UNIT`.
pub open spec fn valid_score_vec(s: Seq<u64>, num_players: int) -> bool {
    s.len() == num_players && sum_scores(s) == SCORE_UNIT
}

/// A score vector of the right length whose entries each stay within one unit.
/// This also holds of the all-zero fallback vector that the search returns
/// when an ongoing position offers no move.
pub open spec fn bounded_score_vec(s: Seq<u64>, num_players: int) -> bool {
    s.len() == num_players && forall|i: int| 0 <= i < s.len() ==> s[i] <= SCORE_UNIT
}

/// The all-zero vector of the given length.
pub open spec fn zero_score_vec(num_players: int) -> Seq<u64> {
    Seq::new(num_players as nat, |i: int| 0u64)
}

pub proof fn lemma_sum_push(s: Seq<u64>, x: u64)
    ensures
        sum_scores(s.push(x)) == sum_scores(s) + x,
{
    assert(s.push(x).drop_last() =~= s);
}

/// Every entry of a score vector is bounded by the sum of the vector.
pub proof fn lemma_sum_bounds(s: Seq<u64>)
    ensures
        forall|i: int| 0 <= i < s.len() ==> s[i] <= sum_scores(s),
        sum_scores(s) >= 0,
    decreases s.len(),
{
    if s.len() > 0 {
        lemma_sum_bounds(s.drop_last());
        assert forall|i: int| 0 <= i < s.len() implies s[i] <= sum_scores(s) by {
            if i < s.len() - 1 {
                assert(s.drop_last()[i] == s[i]);
            }
        }
    }
}

/// In a well-formed score vector every entry lies in `[0, SCORE_UNIT]`;
/// in particular a well-formed vector is bounded.
pub proof fn lemma_valid_is_bounded(s: Seq<u64>, num_players: int)
    requires
        valid_score_vec(s, num_players),
    ensures
        bounded_score_vec(s, num_players),
{
    lemma_sum_bounds(s);
}

} // verus!

