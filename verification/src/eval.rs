//! Leaf evaluation: scoring a non-terminal state, one value per player.

use vstd::prelude::*;

use crate::game::{GameState, Position};
use crate::game_elements::{
    lemma_sum_push, sum_scores, valid_score_vec, MAX_PLAYERS, SCORE_UNIT,
};

verus! {

/// A capability object that scores a non-terminal state with one utility
/// share per player. It is consulted when the search is cut off before a
/// terminal state is reached; whatever it returns must satisfy the
/// score-vector invariant.
///
/// An evaluation function need not be deterministic (the random one below
/// is not). One that declares itself `deterministic` also pins its result
/// to `spec_evaluate`, and the search result is then a function of its
/// inputs alone.
pub trait EvaluationFunction {
    spec fn wf(&self) -> bool;

    /// How many players the returned vectors score.
    spec fn spec_num_players(&self) -> int;

    /// Whether `evaluate` returns the same vector whenever it is given the
    /// same position.
    spec fn deterministic(&self) -> bool;

    /// The vector a deterministic evaluation function returns.
    spec fn spec_evaluate(&self, pos: Position) -> Seq<u64>;

    fn evaluate(&self, state: &GameState) -> (r: Vec<u64>)
        requires
            self.wf(),
        ensures
            valid_score_vec(r@, self.spec_num_players()),
            self.deterministic() ==> r@ == self.spec_evaluate(state.pos()),
    ;
}

/// A sequence of scores in ascending order.
pub open spec fn sorted_scores(s: Seq<u64>) -> bool {
    forall|i: int, j: int| 0 <= i <= j < s.len() ==> s[i] <= s[j]
}

/// Relies on `rand::Rng::gen_range` over the inclusive range `0..=high`:
/// the sampled value lies within the range's bounds, and the call panics
/// only on an empty range, which `0..=high` never is.
#[verifier::external_body]
fn random_up_to(high: u64) -> (r: u64)
    ensures
        r <= high,
{
    rand::Rng::gen_range(&mut rand::thread_rng(), 0..=high)
}

/// Insert a score into a vector kept in ascending order.
fn sorted_insert(v: &mut Vec<u64>, x: u64)
    requires
        sorted_scores(old(v)@),
        forall|i: int| 0 <= i < old(v)@.len() ==> old(v)@[i] <= SCORE_UNIT,
        x <= SCORE_UNIT,
        old(v)@.len() < usize::MAX,
    ensures
        sorted_scores(final(v)@),
        final(v)@.len() == old(v)@.len() + 1,
        forall|i: int| 0 <= i < final(v)@.len() ==> final(v)@[i] <= SCORE_UNIT,
{
    let mut idx: usize = 0;
    while idx < v.len() && v[idx] <= x
        invariant
            idx <= v@.len(),
            forall|i: int| 0 <= i < idx ==> v@[i] <= x,
            v == old(v),
        decreases v@.len() - idx,
    {
        idx += 1;
    }
    v.insert(idx, x);
    proof {
        assert forall|i: int, j: int| 0 <= i <= j < v@.len() implies v@[i] <= v@[j] by {
            assert(sorted_scores(old(v)@));
            if i < idx && j > idx {
                assert(old(v)@[i] <= x);
            }
            if i == idx && idx < j {
                assert(old(v)@[j - 1] >= old(v)@[idx as int]);
            }
        }
    }
}

/// The placeholder leaf heuristic shipped with the engine: it ignores the
/// state entirely and returns a uniformly random split of the total into
/// one share per player (random cut points over `[0, SCORE_UNIT]`, sorted,
/// then consecutive differences).
pub struct RandomEvaluationFunction {
    pub num_players: usize,
}

impl RandomEvaluationFunction {
    pub fn new(num_players: usize) -> (r: RandomEvaluationFunction)
        requires
            1 <= num_players <= MAX_PLAYERS,
        ensures
            r.wf(),
            r.num_players == num_players,
    {
        RandomEvaluationFunction { num_players }
    }
}

impl EvaluationFunction for RandomEvaluationFunction {
    open spec fn wf(&self) -> bool {
        1 <= self.num_players <= MAX_PLAYERS
    }

    open spec fn spec_num_players(&self) -> int {
        self.num_players as int
    }

    open spec fn deterministic(&self) -> bool {
        false
    }

    open spec fn spec_evaluate(&self, pos: Position) -> Seq<u64> {
        crate::game::uniform_vec(self.num_players as int)
    }

    // The random evaluation function doesn't actually use the state.
    fn evaluate(&self, state: &GameState) -> (r: Vec<u64>) {
        let mut cuts: Vec<u64> = Vec::new();
        let mut k: usize = 0;
        while k < self.num_players - 1
            invariant
                self.num_players >= 1,
                k <= self.num_players - 1,
                cuts@.len() == k,
                sorted_scores(cuts@),
                forall|i: int| 0 <= i < cuts@.len() ==> cuts@[i] <= SCORE_UNIT,
            decreases self.num_players - 1 - k,
        {
            let c = random_up_to(SCORE_UNIT);
            sorted_insert(&mut cuts, c);
            k += 1;
        }
        let mut result: Vec<u64> = Vec::new();
        let mut prev: u64 = 0;
        let mut i: usize = 0;
        while i < cuts.len()
            invariant
                i <= cuts@.len(),
                result@.len() == i,
                sum_scores(result@) == prev,
                prev <= SCORE_UNIT,
                sorted_scores(cuts@),
                forall|k2: int| 0 <= k2 < cuts@.len() ==> cuts@[k2] <= SCORE_UNIT,
                i > 0 ==> prev == cuts@[i - 1],
                i == 0 ==> prev == 0,
            decreases cuts@.len() - i,
        {
            let c = cuts[i];
            assert(prev <= c);
            let ghost before = result@;
            result.push(c - prev);
            proof {
                lemma_sum_push(before, (c - prev) as u64);
            }
            prev = c;
            i += 1;
        }
        let ghost before = result@;
        result.push(SCORE_UNIT - prev);
        proof {
            lemma_sum_push(before, (SCORE_UNIT - prev) as u64);
        }
        result
    }
}

/// A deterministic evaluation function that returns the same fixed vector
/// for every state.
pub struct ConstantEvaluationFunction {
    pub scores: Vec<u64>,
}

impl ConstantEvaluationFunction {
    pub fn new(scores: Vec<u64>) -> (r: ConstantEvaluationFunction)
        requires
            1 <= scores@.len() <= MAX_PLAYERS,
            valid_score_vec(scores@, scores@.len() as int),
        ensures
            r.wf(),
            r.scores == scores,
    {
        ConstantEvaluationFunction { scores }
    }
}

impl EvaluationFunction for ConstantEvaluationFunction {
    open spec fn wf(&self) -> bool {
        &&& 1 <= self.scores@.len() <= MAX_PLAYERS
        &&& valid_score_vec(self.scores@, self.scores@.len() as int)
    }

    open spec fn spec_num_players(&self) -> int {
        self.scores@.len() as int
    }

    open spec fn deterministic(&self) -> bool {
        true
    }

    open spec fn spec_evaluate(&self, pos: Position) -> Seq<u64> {
        self.scores@
    }

    fn evaluate(&self, state: &GameState) -> (r: Vec<u64>) {
        let mut r: Vec<u64> = Vec::new();
        let mut i: usize = 0;
        while i < self.scores.len()
            invariant
                i <= self.scores@.len(),
                r@.len() == i,
                forall|k: int| 0 <= k < i ==> r@[k] == self.scores@[k],
            decreases self.scores@.len() - i,
        {
            r.push(self.scores[i]);
            i += 1;
        }
        assert(r@ =~= self.scores@);
        r
    }
}

} // verus!
