//! Game states and the engine's mutable game object.

use vstd::prelude::*;

use crate::game_elements::{
    board_view, sum_scores, valid_score_vec, BoardCell, GameStatus, Player, MAX_PLAYERS,
    SCORE_UNIT,
};
use crate::game_spec::GameSpec;

verus! {

/// The mathematical content of one game state: whose turn it is, how many
/// moves were applied to reach it, and the board. The predecessor link is
/// deliberately not part of a position: it is provenance, not identity.
pub struct Position {
    pub to_move: Player,
    pub move_num: nat,
    pub board: Seq<Seq<BoardCell>>,
}

/// An immutable snapshot of one point in the game. Each state owns at most
/// one backward link to the state it was derived from; the links form a
/// finite, acyclic chain that the game object walks when it undoes a move.
pub struct GameState {
    pub to_move: Player,
    pub move_num: usize,
    pub board: Vec<Vec<BoardCell>>,
    pub prev_state: Option<Box<GameState>>,
}

impl GameState {
    /// The position this state denotes.
    pub open spec fn pos(self) -> Position {
        Position {
            to_move: self.to_move,
            move_num: self.move_num as nat,
            board: board_view(self.board@),
        }
    }

    /// The positions of the predecessors of this state, most recent first.
    pub open spec fn hist(self) -> Seq<Position>
        decreases self,
    {
        match self.prev_state {
            Option::None => Seq::empty(),
            Option::Some(p) => seq![p.pos()] + p.hist(),
        }
    }

    pub fn new(to_move: Player, move_num: usize, board: Vec<Vec<BoardCell>>) -> (s: GameState)
        ensures
            s.to_move == to_move,
            s.move_num == move_num,
            s.board == board,
            s.prev_state is None,
    {
        GameState { to_move, move_num, board, prev_state: Option::None }
    }

    pub fn get_to_move(&self) -> (p: Player)
        ensures
            p == self.to_move,
    {
        self.to_move
    }

    pub fn get_move_num(&self) -> (n: usize)
        ensures
            n == self.move_num,
    {
        self.move_num
    }

    pub fn get_board(&self) -> (b: &Vec<Vec<BoardCell>>)
        ensures
            b == self.board,
    {
        &self.board
    }

    pub fn get_prev_state(&self) -> (p: &Option<Box<GameState>>)
        ensures
            p == self.prev_state,
    {
        &self.prev_state
    }

    pub fn set_prev_state(&mut self, state: Box<GameState>)
        ensures
            final(self).to_move == old(self).to_move,
            final(self).move_num == old(self).move_num,
            final(self).board == old(self).board,
            final(self).prev_state == Some(state),
    {
        self.prev_state = Option::Some(state);
    }
}

/// Cell-by-cell comparison of two boards.
pub fn boards_equal(a: &Vec<Vec<BoardCell>>, b: &Vec<Vec<BoardCell>>) -> (r: bool)
    ensures
        r == (board_view(a@) == board_view(b@)),
{
    if a.len() != b.len() {
        assert(board_view(a@).len() != board_view(b@).len());
        return false;
    }
    let mut i: usize = 0;
    while i < a.len()
        invariant
            i <= a.len(),
            a@.len() == b@.len(),
            forall|k: int| 0 <= k < i ==> board_view(a@)[k] == board_view(b@)[k],
        decreases a.len() - i,
    {
        let ra = &a[i];
        let rb = &b[i];
        if ra.len() != rb.len() {
            assert(board_view(a@)[i as int].len() != board_view(b@)[i as int].len());
            return false;
        }
        let mut j: usize = 0;
        while j < ra.len()
            invariant
                j <= ra.len(),
                ra@.len() == rb@.len(),
                ra == a@[i as int],
                rb == b@[i as int],
                i < a@.len(),
                a@.len() == b@.len(),
                forall|k: int| 0 <= k < j ==> ra@[k] == rb@[k],
            decreases ra.len() - j,
        {
            let ca = ra[j];
            let cb = rb[j];
            let same = match (ca, cb) {
                (Option::None, Option::None) => true,
                (Option::Some(pa), Option::Some(pb)) => pa == pb,
                _ => false,
            };
            if !same {
                assert(board_view(a@)[i as int][j as int] != board_view(b@)[i as int][j as int]);
                return false;
            }
            j += 1;
        }
        assert(board_view(a@)[i as int] =~= board_view(b@)[i as int]);
        i += 1;
    }
    assert(board_view(a@) =~= board_view(b@));
    true
}

/// A cell-by-cell copy of a board.
pub fn clone_board(b: &Vec<Vec<BoardCell>>) -> (r: Vec<Vec<BoardCell>>)
    ensures
        board_view(r@) == board_view(b@),
{
    let mut r: Vec<Vec<BoardCell>> = Vec::new();
    let mut i: usize = 0;
    while i < b.len()
        invariant
            i <= b.len(),
            r@.len() == i,
            forall|k: int| 0 <= k < i ==> board_view(r@)[k] == board_view(b@)[k],
        decreases b.len() - i,
    {
        let row = &b[i];
        let mut new_row: Vec<BoardCell> = Vec::new();
        let mut j: usize = 0;
        while j < row.len()
            invariant
                j <= row.len(),
                new_row@.len() == j,
                row == b@[i as int],
                i < b@.len(),
                forall|k: int| 0 <= k < j ==> new_row@[k] == row@[k],
            decreases row.len() - j,
        {
            new_row.push(row[j]);
            j += 1;
        }
        assert(new_row@ =~= b@[i as int]@);
        r.push(new_row);
        i += 1;
    }
    assert(board_view(r@) =~= board_view(b@));
    r
}

impl PartialEq for GameState {
    /// Equality on states compares the position only: the turn, the move
    /// counter and the board. The predecessor chain does not take part.
    fn eq(&self, other: &GameState) -> (r: bool) {
        self.to_move == other.to_move && self.move_num == other.move_num && boards_equal(
            &self.board,
            &other.board,
        )
    }
}

impl Eq for GameState {

}

impl vstd::std_specs::cmp::PartialEqSpecImpl for GameState {
    open spec fn obeys_eq_spec() -> bool {
        true
    }

    open spec fn eq_spec(&self, other: &GameState) -> bool {
        self.pos() == other.pos()
    }
}

/// The winner with the least index at or above `i`, if any: win tests are
/// evaluated for each player in increasing index order and the first match
/// wins.
pub open spec fn first_winner_from<S: GameSpec>(
    rules: S,
    pos: Position,
    hist: Seq<Position>,
    num_players: int,
    i: int,
) -> Option<int>
    decreases num_players - i,
{
    if i >= num_players {
        Option::None
    } else if rules.spec_is_win(pos, hist, num_players, crate::game_elements::player_of(i)) {
        Option::Some(i)
    } else {
        first_winner_from(rules, pos, hist, num_players, i + 1)
    }
}

/// The derived status of a position: the tie test is checked first, then
/// the win test for each player in increasing index order; if neither
/// fires, the game is ongoing.
pub open spec fn spec_status<S: GameSpec>(
    rules: S,
    pos: Position,
    hist: Seq<Position>,
    num_players: int,
) -> GameStatus {
    if rules.spec_is_tie(pos, hist, num_players) {
        GameStatus::Tie
    } else {
        match first_winner_from(rules, pos, hist, num_players, 0) {
            Option::Some(w) => GameStatus::spec_win_of(w),
            Option::None => GameStatus::Ongoing,
        }
    }
}

/// A reported winner always lies in `[i, num_players)`.
pub proof fn lemma_first_winner_range<S: GameSpec>(
    rules: S,
    pos: Position,
    hist: Seq<Position>,
    num_players: int,
    i: int,
)
    ensures
        first_winner_from(rules, pos, hist, num_players, i) matches Option::Some(w) ==> i <= w
            < num_players,
    decreases num_players - i,
{
    if i < num_players {
        lemma_first_winner_range(rules, pos, hist, num_players, i + 1);
    }
}

/// If the tie test fires, the status is a tie, whatever the win tests say:
/// the tie test takes precedence.
pub proof fn lemma_status_tie_precedence<S: GameSpec>(
    rules: S,
    pos: Position,
    hist: Seq<Position>,
    num_players: int,
)
    requires
        rules.spec_is_tie(pos, hist, num_players),
    ensures
        spec_status(rules, pos, hist, num_players) == GameStatus::Tie,
{
}

/// The uniform share of one player when the total is split evenly over
/// `num_players` players: `SCORE_UNIT / num_players`. The quotient is
/// written out per supported player count to keep the arithmetic linear.
pub open spec fn uniform_share(num_players: int) -> u64 {
    if num_players <= 1 {
        SCORE_UNIT
    } else if num_players == 2 {
        1260u64
    } else if num_players == 3 {
        840u64
    } else {
        630u64
    }
}

/// The score vector that splits the total evenly over all players.
pub open spec fn uniform_vec(num_players: int) -> Seq<u64> {
    Seq::new(num_players as nat, |i: int| uniform_share(num_players))
}

/// The score vector that hands the whole total to one winner.
pub open spec fn indicator_vec(num_players: int, winner: int) -> Seq<u64> {
    Seq::new(num_players as nat, |i: int| if i == winner { SCORE_UNIT } else { 0u64 })
}

/// The score vector a status is worth: the whole total for a winner, an
/// even split for a tie or an ongoing game.
pub open spec fn spec_score_of_status(status: GameStatus, num_players: int) -> Seq<u64> {
    match status {
        GameStatus::Player0Win => indicator_vec(num_players, 0),
        GameStatus::Player1Win => indicator_vec(num_players, 1),
        GameStatus::Player2Win => indicator_vec(num_players, 2),
        GameStatus::Player3Win => indicator_vec(num_players, 3),
        GameStatus::Ongoing => uniform_vec(num_players),
        GameStatus::Tie => uniform_vec(num_players),
    }
}

/// The sum of a score vector of at most `MAX_PLAYERS` entries, written out
/// entry by entry.
pub proof fn lemma_sum_unroll(s: Seq<u64>)
    requires
        s.len() <= MAX_PLAYERS,
    ensures
        sum_scores(s) == if s.len() == 0 {
            0int
        } else if s.len() == 1 {
            s[0] as int
        } else if s.len() == 2 {
            s[0] + s[1]
        } else if s.len() == 3 {
            s[0] + s[1] + s[2]
        } else {
            s[0] + s[1] + s[2] + s[3]
        },
    decreases s.len(),
{
    if s.len() > 0 {
        lemma_sum_unroll(s.drop_last());
    }
}

/// The score-vector invariant: for every status the derived score vector
/// has one entry per player and its entries add up to exactly the total.
pub proof fn lemma_score_of_status_valid(status: GameStatus, num_players: int)
    requires
        1 <= num_players <= MAX_PLAYERS,
        (status == GameStatus::Player0Win ==> num_players > 0),
        (status == GameStatus::Player1Win ==> num_players > 1),
        (status == GameStatus::Player2Win ==> num_players > 2),
        (status == GameStatus::Player3Win ==> num_players > 3),
    ensures
        valid_score_vec(spec_score_of_status(status, num_players), num_players),
{
    match status {
        GameStatus::Player0Win => lemma_sum_unroll(indicator_vec(num_players, 0)),
        GameStatus::Player1Win => lemma_sum_unroll(indicator_vec(num_players, 1)),
        GameStatus::Player2Win => lemma_sum_unroll(indicator_vec(num_players, 2)),
        GameStatus::Player3Win => lemma_sum_unroll(indicator_vec(num_players, 3)),
        _ => {
            lemma_sum_unroll(uniform_vec(num_players));
            if num_players == 1 {
                assert(uniform_share(1) == 2520u64);
            } else if num_players == 2 {
                assert(uniform_share(2) == 1260u64);
            } else if num_players == 3 {
                assert(uniform_share(3) == 840u64);
            } else {
                assert(uniform_share(4) == 630u64);
            }
        },
    }
}

/// Undo is an exact inverse of apply. `transition` promises that the new
/// current state links the old one as its predecessor, and
/// `undo_transition` promises that the state it restores is exactly the
/// predecessor of the state it pops. Chaining the two contracts, a
/// transition followed by an undo hands back the very state the transition
/// started from: the same turn, move counter, board and predecessor chain,
/// so in particular a state equal under state equality.
pub proof fn lemma_apply_undo_inverse<S: GameSpec>(
    before: Game<S>,
    applied: Game<S>,
    restored: Game<S>,
)
    requires
        applied.state.prev_state == Some(before.state),
        Some(restored.state) == applied.state.prev_state,
    ensures
        restored.state == before.state,
        restored.state.pos() == before.state.pos(),
{
}

/// The engine's handle on a running game: the current state, the rules
/// object that drives it, and the number of players.
pub struct Game<S: GameSpec> {
    pub state: Box<GameState>,
    pub rules: S,
    pub num_players: usize,
}

impl<S: GameSpec> Game<S> {
    /// A position the game object can be trusted with: the rules object can
    /// handle it and its player to move is in range.
    pub open spec fn pos_ok(self, pos: Position) -> bool {
        &&& self.rules.inv(pos)
        &&& 0 <= pos.to_move.spec_idx() < self.num_players
    }

    /// Well-formedness of the whole game object, preserved by every
    /// operation: the current position and every predecessor position are
    /// acceptable to the rules object.
    pub open spec fn wf(self) -> bool {
        &&& self.rules.wf()
        &&& 1 <= self.num_players <= MAX_PLAYERS
        &&& self.pos_ok(self.state.pos())
        &&& forall|i: int| 0 <= i < self.state.hist().len() ==> self.pos_ok(
            #[trigger] self.state.hist()[i],
        )
    }

    pub fn new(rules: S, num_players: usize) -> (game: Game<S>)
        requires
            rules.wf(),
            1 <= num_players <= MAX_PLAYERS,
        ensures
            game.wf(),
            game.rules == rules,
            game.num_players == num_players,
            game.state.pos() == (Position {
                to_move: rules.spec_initial_to_move(),
                move_num: 0,
                board: rules.spec_initial_board(),
            }),
            game.state.hist() == Seq::<Position>::empty(),
    {
        proof {
            rules.lemma_initial(num_players as int);
        }
        let to_move = rules.get_initial_to_move();
        let board = rules.get_initial_board();
        let state = GameState::new(to_move, 0, board);
        Game { state: Box::new(state), rules, num_players }
    }

    pub fn get_state(&self) -> (s: &Box<GameState>)
        ensures
            s == self.state,
    {
        &self.state
    }

    pub fn get_num_players(&self) -> (n: usize)
        ensures
            n == self.num_players,
    {
        self.num_players
    }

    /// The player whose turn comes after the current one in simple
    /// round-robin order. Rules objects with another turn order compute
    /// their successor themselves.
    pub fn get_next_player(&self) -> (p: Player)
        requires
            self.wf(),
        ensures
            p.spec_idx() == (self.state.pos().to_move.spec_idx() + 1) % (
            self.num_players as int),
    {
        let next_player_num = (self.get_to_move().to_usize() + 1) % self.get_num_players();
        Player::from_index(next_player_num)
    }

    pub fn get_to_move(&self) -> (p: Player)
        ensures
            p == self.state.to_move,
    {
        self.state.get_to_move()
    }

    pub fn get_move_num(&self) -> (n: usize)
        ensures
            n == self.state.move_num,
    {
        self.state.get_move_num()
    }

    pub fn get_board(&self) -> (b: &Vec<Vec<BoardCell>>)
        ensures
            b == self.state.board,
    {
        self.state.get_board()
    }

    pub fn get_prev_state(&self) -> (p: &Option<Box<GameState>>)
        ensures
            p == self.state.prev_state,
    {
        self.state.get_prev_state()
    }

    /// The derived status of the current state: the tie test first, then
    /// the win test for each player in increasing index order; the first
    /// match decides.
    pub fn get_game_status(&self) -> (st: GameStatus)
        requires
            self.wf(),
        ensures
            st == spec_status(
                self.rules,
                self.state.pos(),
                self.state.hist(),
                self.num_players as int,
            ),
    {
        let ghost pos = self.state.pos();
        let ghost hist = self.state.hist();
        let ghost n = self.num_players as int;
        if self.is_tie() {
            return GameStatus::Tie;
        }
        let mut player_idx: usize = 0;
        while player_idx < self.num_players
            invariant
                self.wf(),
                pos == self.state.pos(),
                hist == self.state.hist(),
                n == self.num_players as int,
                !self.rules.spec_is_tie(pos, hist, n),
                player_idx <= self.num_players,
                first_winner_from(self.rules, pos, hist, n, 0) == first_winner_from(
                    self.rules,
                    pos,
                    hist,
                    n,
                    player_idx as int,
                ),
            decreases self.num_players - player_idx,
        {
            let player = Player::from_index(player_idx);
            if self.is_win(player) {
                assert(first_winner_from(self.rules, pos, hist, n, player_idx as int) == Option::Some(
                    player_idx as int,
                ));
                return if player_idx == 0 {
                    GameStatus::Player0Win
                } else if player_idx == 1 {
                    GameStatus::Player1Win
                } else if player_idx == 2 {
                    GameStatus::Player2Win
                } else {
                    GameStatus::Player3Win
                };
            }
            player_idx += 1;
        }
        GameStatus::Ongoing
    }

    /// The score vector that hands the whole total to the given winner.
    fn create_score_vector(&self, winning_player: Player) -> (score: Vec<u64>)
        requires
            1 <= self.num_players <= MAX_PLAYERS,
            0 <= winning_player.spec_idx() < self.num_players,
        ensures
            score@ == indicator_vec(self.num_players as int, winning_player.spec_idx()),
    {
        let winning_player_idx = winning_player.to_usize();
        let mut score: Vec<u64> = Vec::new();
        let mut i: usize = 0;
        while i < self.num_players
            invariant
                i <= self.num_players,
                score@.len() == i,
                forall|k: int| 0 <= k < i ==> score@[k] == indicator_vec(
                    self.num_players as int,
                    winning_player.spec_idx(),
                )[k],
                winning_player_idx == winning_player.spec_idx(),
            decreases self.num_players - i,
        {
            if i == winning_player_idx {
                score.push(SCORE_UNIT);
            } else {
                score.push(0);
            }
            i += 1;
        }
        assert(score@ =~= indicator_vec(self.num_players as int, winning_player.spec_idx()));
        score
    }

    /// The score of the current state: the whole total for a winner, an
    /// even split for a tie or an ongoing game. The result always satisfies
    /// the score-vector invariant.
    pub fn get_score(&self) -> (score: Vec<u64>)
        requires
            self.wf(),
        ensures
            score@ == spec_score_of_status(
                spec_status(self.rules, self.state.pos(), self.state.hist(), self.num_players as int),
                self.num_players as int,
            ),
            valid_score_vec(score@, self.num_players as int),
    {
        let ghost pos = self.state.pos();
        let ghost hist = self.state.hist();
        let ghost n = self.num_players as int;
        proof {
            lemma_first_winner_range(self.rules, pos, hist, n, 0);
            lemma_score_of_status_valid(spec_status(self.rules, pos, hist, n), n);
        }
        match self.get_game_status() {
            GameStatus::Tie | GameStatus::Ongoing => {
                let share = SCORE_UNIT / (self.num_players as u64);
                proof {
                    if n == 1 {
                        assert(SCORE_UNIT / 1u64 == 2520u64);
                    } else if n == 2 {
                        assert(SCORE_UNIT / 2u64 == 1260u64);
                    } else if n == 3 {
                        assert(SCORE_UNIT / 3u64 == 840u64);
                    } else {
                        assert(SCORE_UNIT / 4u64 == 630u64);
                    }
                    assert(share == uniform_share(n));
                }
                let mut score: Vec<u64> = Vec::new();
                let mut i: usize = 0;
                while i < self.num_players
                    invariant
                        i <= self.num_players,
                        n == self.num_players as int,
                        share == uniform_share(n),
                        score@.len() == i,
                        forall|k: int| 0 <= k < i ==> score@[k] == uniform_vec(n)[k],
                    decreases self.num_players - i,
                {
                    score.push(share);
                    i += 1;
                }
                assert(score@ =~= uniform_vec(n));
                score
            },
            GameStatus::Player0Win => self.create_score_vector(Player::Player0),
            GameStatus::Player1Win => self.create_score_vector(Player::Player1),
            GameStatus::Player2Win => self.create_score_vector(Player::Player2),
            GameStatus::Player3Win => self.create_score_vector(Player::Player3),
        }
    }

    /// The legal moves of the current state, in the order the rules object
    /// produces them.
    pub fn get_valid_moves(&self) -> (moves: Vec<(usize, usize)>)
        requires
            self.wf(),
        ensures
            moves@ == self.rules.spec_valid_moves(self.state.pos(), self.num_players as int),
    {
        self.rules.get_valid_moves(self)
    }

    /// Apply a legal move: advance to the successor state, linking the
    /// current state as its predecessor.
    pub fn transition(&mut self, move_row: usize, move_col: usize)
        requires
            old(self).wf(),
            old(self).rules.spec_valid_moves(
                old(self).state.pos(),
                old(self).num_players as int,
            ).contains((move_row, move_col)),
            old(self).state.move_num < usize::MAX,
        ensures
            final(self).wf(),
            final(self).rules == old(self).rules,
            final(self).num_players == old(self).num_players,
            final(self).state.pos() == old(self).rules.spec_transition(
                old(self).state.pos(),
                old(self).num_players as int,
                (move_row, move_col),
            ),
            final(self).state.prev_state == Some(old(self).state),
            final(self).state.hist() == seq![old(self).state.pos()] + old(self).state.hist(),
    {
        proof {
            self.rules.lemma_transition(
                self.state.pos(),
                self.num_players as int,
                (move_row, move_col),
            );
        }
        let mut other_state = self.rules.transition(self, move_row, move_col);
        core::mem::swap(&mut self.state, &mut other_state);
        self.state.set_prev_state(other_state);
        proof {
            assert(self.state.hist() =~= seq![old(self).state.pos()] + old(self).state.hist());
            assert forall|i: int| 0 <= i < self.state.hist().len() implies self.pos_ok(
                #[trigger] self.state.hist()[i],
            ) by {
                if i > 0 {
                    assert(self.state.hist()[i] == old(self).state.hist()[i - 1]);
                }
            }
        }
    }

    /// Undo the last applied move: pop back to the predecessor state, which
    /// must exist. The restored state is exactly the one the last
    /// `transition` started from, predecessor chain included.
    pub fn undo_transition(&mut self)
        requires
            old(self).wf(),
            old(self).state.prev_state is Some,
        ensures
            final(self).wf(),
            final(self).rules == old(self).rules,
            final(self).num_players == old(self).num_players,
            Some(final(self).state) == old(self).state.prev_state,
            old(self).state.hist() == seq![final(self).state.pos()] + final(self).state.hist(),
    {
        let prev = self.state.prev_state.take();
        match prev {
            Option::Some(prev_state) => {
                self.state = prev_state;
            },
            Option::None => {
                proof {
                    assert(false);
                }
            },
        }
        proof {
            assert(old(self).state.hist() =~= seq![self.state.pos()] + self.state.hist());
            assert(old(self).state.hist()[0] == self.state.pos());
            assert forall|i: int| 0 <= i < self.state.hist().len() implies self.pos_ok(
                #[trigger] self.state.hist()[i],
            ) by {
                assert(self.state.hist()[i] == old(self).state.hist()[i + 1]);
            }
        }
    }

    /// Whether the rules object reports a win for the given player in the
    /// current state.
    pub fn is_win(&self, player: Player) -> (r: bool)
        requires
            self.wf(),
        ensures
            r == self.rules.spec_is_win(
                self.state.pos(),
                self.state.hist(),
                self.num_players as int,
                player,
            ),
    {
        self.rules.is_win(self, player)
    }

    /// Whether the rules object reports a tie in the current state.
    pub fn is_tie(&self) -> (r: bool)
        requires
            self.wf(),
        ensures
            r == self.rules.spec_is_tie(
                self.state.pos(),
                self.state.hist(),
                self.num_players as int,
            ),
    {
        self.rules.is_tie(self)
    }
}

} // verus!


