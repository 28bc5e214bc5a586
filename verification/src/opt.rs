//! Multiplayer minimax search with pruning.
//!
//! The search explores the game tree depth first on a single live game
//! object: it applies a move, recurses, and undoes the move on the way back
//! up, on every exit path, so the game is always restored exactly before a
//! frame returns. Scores are utility shares adding up to `SCORE_UNIT`, and
//! that invariant is what justifies the pruning test: a player can never
//! obtain more than the total minus what the best-positioned opponent has
//! already secured elsewhere on the current path.

use vstd::prelude::*;

use crate::eval::EvaluationFunction;
use crate::game::{
    boards_equal, clone_board, spec_score_of_status, spec_status, Game, GameState, Position,
};
use crate::game_elements::{
    board_view, bounded_score_vec, valid_score_vec, zero_score_vec, BoardCell,
    GameStatus, Player, SCORE_UNIT,
};
use crate::game_spec::GameSpec;

verus! {

/// The largest alpha value held by a player other than `p` among the first
/// `i` entries (zero when there is no other player).
pub open spec fn spec_max_other(alphas: Seq<u64>, p: int, i: nat) -> u64
    decreases i,
{
    if i == 0 {
        0u64
    } else {
        let m = spec_max_other(alphas, p, (i - 1) as nat);
        if i - 1 != p && alphas[i - 1] > m {
            alphas[i - 1]
        } else {
            m
        }
    }
}

/// The pruning test: the current best already reaches the ceiling that the
/// alphas of the other players leave to `p`, so no sibling can improve on
/// it in a way that matters to the parent.
pub open spec fn spec_can_prune(score: Seq<u64>, alphas: Seq<u64>, p: int) -> bool {
    score[p] > SCORE_UNIT - spec_max_other(alphas, p, alphas.len())
}

fn can_prune(score: &Vec<u64>, alphas: &Vec<u64>, player_idx: usize) -> (r: bool)
    requires
        (player_idx as int) < score@.len(),
        forall|k: int| 0 <= k < alphas@.len() ==> alphas@[k] <= SCORE_UNIT,
    ensures
        r == spec_can_prune(score@, alphas@, player_idx as int),
{
    let mut max_other: u64 = 0;
    let mut i: usize = 0;
    while i < alphas.len()
        invariant
            i <= alphas@.len(),
            forall|k: int| 0 <= k < alphas@.len() ==> alphas@[k] <= SCORE_UNIT,
            max_other == spec_max_other(alphas@, player_idx as int, i as nat),
            max_other <= SCORE_UNIT,
        decreases alphas@.len() - i,
    {
        if i != player_idx && alphas[i] > max_other {
            max_other = alphas[i];
        }
        i += 1;
    }
    score[player_idx] > SCORE_UNIT - max_other
}

/// The dedup key of a state at one sibling level: the turn and the board,
/// explicitly excluding the move counter and the predecessor link.
pub open spec fn position_key(pos: Position) -> (Player, Seq<Seq<BoardCell>>) {
    (pos.to_move, pos.board)
}

/// The keys recorded for the siblings explored so far.
pub open spec fn seen_view(seen: Seq<(Player, Vec<Vec<BoardCell>>)>) -> Seq<
    (Player, Seq<Seq<BoardCell>>),
> {
    seen.map_values(|e: (Player, Vec<Vec<BoardCell>>)| (e.0, board_view(e.1@)))
}

/// Whether a sibling at this level already produced the same position
/// (same turn, same board).
fn position_seen(seen: &Vec<(Player, Vec<Vec<BoardCell>>)>, state: &GameState) -> (r: bool)
    ensures
        r == seen_view(seen@).contains(position_key(state.pos())),
{
    let mut i: usize = 0;
    while i < seen.len()
        invariant
            i <= seen@.len(),
            forall|k: int| 0 <= k < i ==> seen_view(seen@)[k] != position_key(state.pos()),
        decreases seen@.len() - i,
    {
        let (p, b) = &seen[i];
        if p.to_usize() == state.get_to_move().to_usize() && boards_equal(b, state.get_board()) {
            proof {
                assert(seen_view(seen@)[i as int] == position_key(state.pos()));
            }
            return true;
        }
        proof {
            assert(seen_view(seen@)[i as int] == (seen@[i as int].0, board_view(
                seen@[i as int].1@,
            )));
        }
        i += 1;
    }
    proof {
        assert(!seen_view(seen@).contains(position_key(state.pos())));
    }
    false
}


/// The best candidate so far, as the specification sees it: the score
/// vector and the move that produced it.
pub open spec fn model_best(bs: Option<Vec<u64>>, bm: Option<(usize, usize)>) -> Option<
    (Seq<u64>, (usize, usize)),
> {
    match (bs, bm) {
        (Option::Some(v), Option::Some(m)) => Option::Some((v@, m)),
        _ => Option::None,
    }
}

/// The sibling loop of one search frame, mirrored at the specification
/// level. Walks the moves from index `i` on, threading the seen positions,
/// the best candidate and the alpha values exactly as the search does, and
/// returns the final candidate together with the alphas as they stand when
/// the loop leaves (before the frame restores them).
pub open spec fn spec_dfs_loop<S: GameSpec, E: EvaluationFunction>(
    rules: S,
    ev: E,
    pos: Position,
    hist: Seq<Position>,
    n: int,
    d: nat,
    alphas: Seq<u64>,
    moves: Seq<(usize, usize)>,
    i: nat,
    seen: Seq<(Player, Seq<Seq<BoardCell>>)>,
    best: Option<(Seq<u64>, (usize, usize))>,
    search_depth: nat,
) -> (Option<(Seq<u64>, (usize, usize))>, Seq<u64>)
    decreases search_depth - d, 0nat, moves.len() - i,
{
    if i >= moves.len() || d >= search_depth {
        (best, alphas)
    } else {
        let mv = moves[i as int];
        let child = rules.spec_transition(pos, n, mv);
        let key = (child.to_move, child.board);
        if seen.contains(key) {
            spec_dfs_loop(rules, ev, pos, hist, n, d, alphas, moves, i + 1, seen, best, search_depth)
        } else {
            let seen2 = seen.push(key);
            let cscore = spec_dfs(
                rules,
                ev,
                child,
                seq![pos] + hist,
                n,
                (d + 1) as nat,
                alphas,
                search_depth,
            ).0;
            let p = pos.to_move.spec_idx();
            let better = match best {
                Option::None => true,
                Option::Some(bpair) => cscore[p] > bpair.0[p],
            };
            if better {
                let best2 = Option::Some((cscore, mv));
                if spec_can_prune(cscore, alphas, p) {
                    (best2, alphas)
                } else {
                    let alphas2 = if cscore[p] > alphas[p] {
                        alphas.update(p, cscore[p])
                    } else {
                        alphas
                    };
                    spec_dfs_loop(
                        rules,
                        ev,
                        pos,
                        hist,
                        n,
                        d,
                        alphas2,
                        moves,
                        i + 1,
                        seen2,
                        best2,
                        search_depth,
                    )
                }
            } else {
                spec_dfs_loop(
                    rules,
                    ev,
                    pos,
                    hist,
                    n,
                    d,
                    alphas,
                    moves,
                    i + 1,
                    seen2,
                    best,
                    search_depth,
                )
            }
        }
    }
}

/// One search frame, mirrored at the specification level: the exact value
/// `dfs` returns when the evaluation function is deterministic. Together
/// with the rules object's own determinism this pins the whole search down:
/// two searches over the same inputs return the same score and move.
pub open spec fn spec_dfs<S: GameSpec, E: EvaluationFunction>(
    rules: S,
    ev: E,
    pos: Position,
    hist: Seq<Position>,
    n: int,
    d: nat,
    alphas: Seq<u64>,
    search_depth: nat,
) -> (Seq<u64>, Option<(usize, usize)>)
    decreases search_depth - d, 1nat, 0nat,
{
    let st = spec_status(rules, pos, hist, n);
    if st != GameStatus::Ongoing {
        (spec_score_of_status(st, n), Option::<(usize, usize)>::None)
    } else if d >= search_depth {
        (ev.spec_evaluate(pos), Option::None)
    } else {
        let moves = rules.spec_valid_moves(pos, n);
        let outcome = spec_dfs_loop(
            rules,
            ev,
            pos,
            hist,
            n,
            d,
            alphas,
            moves,
            0,
            Seq::empty(),
            Option::None,
            search_depth,
        ).0;
        match outcome {
            Option::Some(pair) => (pair.0, Option::Some(pair.1)),
            Option::None => (zero_score_vec(n), Option::None),
        }
    }
}

/// One frame of the depth-first multiplayer minimax search.
///
/// Terminal nodes return the game's own score; at the depth cutoff the
/// evaluation function decides; otherwise every legal move is tried in the
/// order the rules produce them, keeping the first move that strictly
/// improves the moving player's share, skipping moves that transpose into a
/// sibling position already explored at this level, and breaking off early
/// when the pruning test fires. The game and the alpha vector are restored
/// exactly before returning, on every path.
pub fn dfs<S: GameSpec, E: EvaluationFunction>(
    game: &mut Game<S>,
    d: usize,
    alphas: &mut Vec<u64>,
    eval_func: &E,
    search_depth: usize,
) -> (r: (Vec<u64>, Option<(usize, usize)>))
    requires
        old(game).wf(),
        eval_func.wf(),
        eval_func.spec_num_players() == old(game).num_players as int,
        d <= search_depth,
        old(game).state.move_num + (search_depth - d) <= usize::MAX,
        old(alphas)@.len() == old(game).num_players as int,
        forall|k: int| 0 <= k < old(alphas)@.len() ==> old(alphas)@[k] <= SCORE_UNIT,
    ensures
        final(game).state == old(game).state,
        final(game).rules == old(game).rules,
        final(game).num_players == old(game).num_players,
        final(alphas)@ == old(alphas)@,
        bounded_score_vec(r.0@, old(game).num_players as int),
        valid_score_vec(r.0@, old(game).num_players as int) || r.0@ == zero_score_vec(
            old(game).num_players as int,
        ),
        ({
            let st = spec_status(
                old(game).rules,
                old(game).state.pos(),
                old(game).state.hist(),
                old(game).num_players as int,
            );
            &&& (st != GameStatus::Ongoing ==> r.0@ == spec_score_of_status(
                st,
                old(game).num_players as int,
            ) && r.1 is None)
            &&& (st == GameStatus::Ongoing && d == search_depth ==> r.1 is None
                && valid_score_vec(r.0@, old(game).num_players as int))
            &&& (st == GameStatus::Ongoing && d < search_depth ==> {
                let moves = old(game).rules.spec_valid_moves(
                    old(game).state.pos(),
                    old(game).num_players as int,
                );
                &&& (moves.len() == 0 ==> r.0@ == zero_score_vec(old(game).num_players as int)
                    && r.1 is None)
                &&& (moves.len() > 0 ==> r.1 is Some)
                &&& (r.1 matches Some(m) ==> moves.contains(m))
            })
        }),
        eval_func.deterministic() ==> ({
            let model = spec_dfs(
                old(game).rules,
                *eval_func,
                old(game).state.pos(),
                old(game).state.hist(),
                old(game).num_players as int,
                d as nat,
                old(alphas)@,
                search_depth as nat,
            );
            r.0@ == model.0 && r.1 == model.1
        }),
    decreases search_depth - d,
{
    let ghost n = old(game).num_players as int;
    let ghost pos0 = old(game).state.pos();
    let ghost hist0 = old(game).state.hist();
    let status = game.get_game_status();
    if status != GameStatus::Ongoing {
        let score = game.get_score();
        proof {
            crate::game_elements::lemma_valid_is_bounded(score@, n);
        }
        return (score, Option::None);
    }
    if d == search_depth {
        let score = eval_func.evaluate(&*game.state);
        proof {
            crate::game_elements::lemma_valid_is_bounded(score@, n);
        }
        return (score, Option::None);
    }

    let player = game.get_to_move();
    let player_idx = player.to_usize();
    let old_alpha = alphas[player_idx];
    let moves = game.get_valid_moves();
    let mut best_move: Option<(usize, usize)> = Option::None;
    let mut best_score: Option<Vec<u64>> = Option::None;

    // Each sibling level starts with a fresh record of the positions the
    // earlier siblings produced.
    let mut seen: Vec<(Player, Vec<Vec<BoardCell>>)> = Vec::new();

    let ghost target = spec_dfs_loop(
        old(game).rules,
        *eval_func,
        pos0,
        hist0,
        n,
        d as nat,
        old(alphas)@,
        moves@,
        0,
        Seq::empty(),
        Option::None,
        search_depth as nat,
    );
    let mut idx: usize = 0;
    let mut pruned: bool = false;
    proof {
        assert(seen_view(seen@) =~= Seq::<(Player, Seq<Seq<BoardCell>>)>::empty());
    }
    while idx < moves.len() && !pruned
        invariant
            game.wf(),
            game.state == old(game).state,
            game.rules == old(game).rules,
            game.num_players == old(game).num_players,
            n == game.num_players as int,
            pos0 == game.state.pos(),
            hist0 == game.state.hist(),
            eval_func.wf(),
            eval_func.spec_num_players() == n,
            d < search_depth,
            game.state.move_num + (search_depth - d) <= usize::MAX,
            player_idx == pos0.to_move.spec_idx(),
            (player_idx as int) < n,
            moves@ == game.rules.spec_valid_moves(pos0, n),
            idx <= moves@.len(),
            alphas@.len() == n,
            forall|k: int| 0 <= k < alphas@.len() ==> alphas@[k] <= SCORE_UNIT,
            forall|k: int| 0 <= k < alphas@.len() && k != player_idx ==> alphas@[k] == old(
                alphas,
            )@[k],
            old_alpha == old(alphas)@[player_idx as int],
            best_move is Some <==> best_score is Some,
            best_score matches Some(bs) ==> bounded_score_vec(bs@, n) && (valid_score_vec(
                bs@,
                n,
            ) || bs@ == zero_score_vec(n)),
            best_move matches Some(m) ==> moves@.contains(m),
            idx > 0 ==> best_score is Some,
            pruned ==> best_score is Some,
            idx == 0 ==> seen@.len() == 0,
            target == spec_dfs_loop(
                game.rules,
                *eval_func,
                pos0,
                hist0,
                n,
                d as nat,
                old(alphas)@,
                moves@,
                0,
                Seq::empty(),
                Option::None,
                search_depth as nat,
            ),
            eval_func.deterministic() && !pruned ==> spec_dfs_loop(
                game.rules,
                *eval_func,
                pos0,
                hist0,
                n,
                d as nat,
                alphas@,
                moves@,
                idx as nat,
                seen_view(seen@),
                model_best(best_score, best_move),
                search_depth as nat,
            ) == target,
            eval_func.deterministic() && pruned ==> (
                model_best(best_score, best_move),
                alphas@,
            ) == target,
        decreases moves@.len() - idx,
    {
        let ghost alphas_at = alphas@;
        let ghost seen_at = seen_view(seen@);
        let ghost best_at = model_best(best_score, best_move);
        let ghost child = game.rules.spec_transition(pos0, n, moves@[idx as int]);
        let (move_row, move_col) = moves[idx];
        proof {
            assert(moves@[idx as int] == (move_row, move_col));
            assert(moves@.contains((move_row, move_col)));
        }
        game.transition(move_row, move_col);

        if position_seen(&seen, &*game.state) {
            // An earlier sibling already produced this position: skip it.
            game.undo_transition();
            proof {
                if eval_func.deterministic() {
                    assert(seen_at.contains((child.to_move, child.board)));
                    assert(spec_dfs_loop(
                        game.rules,
                        *eval_func,
                        pos0,
                        hist0,
                        n,
                        d as nat,
                        alphas_at,
                        moves@,
                        idx as nat,
                        seen_at,
                        best_at,
                        search_depth as nat,
                    ) == spec_dfs_loop(
                        game.rules,
                        *eval_func,
                        pos0,
                        hist0,
                        n,
                        d as nat,
                        alphas_at,
                        moves@,
                        (idx + 1) as nat,
                        seen_at,
                        best_at,
                        search_depth as nat,
                    ));
                }
            }
        } else {
            let key_player = game.state.get_to_move();
            let key_board = clone_board(game.state.get_board());
            let ghost seen_before = seen_view(seen@);
            seen.push((key_player, key_board));
            proof {
                assert(!seen_before.contains((child.to_move, child.board)));
                assert forall|k: int| 0 <= k < seen@.len() implies (#[trigger] seen_view(seen@)[
                k]) == (if k < seen_before.len() {
                    seen_before[k]
                } else {
                    (child.to_move, child.board)
                }) by {
                    assert(seen_view(seen@)[k] == (seen@[k].0, crate::game_elements::board_view(
                        seen@[k].1@,
                    )));
                    if k < seen_before.len() {
                        assert(seen_before[k] == (seen@[k].0, crate::game_elements::board_view(
                            seen@[k].1@,
                        )));
                    }
                }
                assert(seen_view(seen@) =~= seen_before.push((child.to_move, child.board)));
            }

            proof {
                game.rules.lemma_transition(pos0, n, (move_row, move_col));
                assert(game.state.pos().move_num == pos0.move_num + 1);
                assert(game.state.move_num + (search_depth - (d + 1)) <= usize::MAX);
            }
            let (score, _descendant) = dfs(game, d + 1, alphas, eval_func, search_depth);
            proof {
                if eval_func.deterministic() {
                    assert(score@ == spec_dfs(
                        game.rules,
                        *eval_func,
                        child,
                        seq![pos0] + hist0,
                        n,
                        (d + 1) as nat,
                        alphas_at,
                        search_depth as nat,
                    ).0);
                }
            }

            let better = match &best_score {
                Option::None => true,
                Option::Some(bs) => score[player_idx] > bs[player_idx],
            };
            if better {
                if can_prune(&score, alphas, player_idx) {
                    pruned = true;
                } else {
                    let candidate = score[player_idx];
                    if candidate > alphas[player_idx] {
                        alphas[player_idx] = candidate;
                    }
                    proof {
                        if score@[player_idx as int] > alphas_at[player_idx as int] {
                            assert(alphas@ =~= alphas_at.update(
                                player_idx as int,
                                score@[player_idx as int],
                            ));
                        } else {
                            assert(alphas@ =~= alphas_at);
                        }
                    }
                }
                best_score = Option::Some(score);
                best_move = Option::Some((move_row, move_col));
            }
            game.undo_transition();
            proof {
                if eval_func.deterministic() {
                    let step = spec_dfs_loop(
                        game.rules,
                        *eval_func,
                        pos0,
                        hist0,
                        n,
                        d as nat,
                        alphas_at,
                        moves@,
                        idx as nat,
                        seen_at,
                        best_at,
                        search_depth as nat,
                    );
                    if pruned {
                        assert(step == (model_best(best_score, best_move), alphas_at));
                        assert(alphas@ == alphas_at);
                    } else {
                        assert(step == spec_dfs_loop(
                            game.rules,
                            *eval_func,
                            pos0,
                            hist0,
                            n,
                            d as nat,
                            alphas@,
                            moves@,
                            (idx + 1) as nat,
                            seen_view(seen@),
                            model_best(best_score, best_move),
                            search_depth as nat,
                        ));
                    }
                }
            }
        }
        idx += 1;
    }
    alphas[player_idx] = old_alpha;
    proof {
        assert(alphas@ =~= old(alphas)@);
    }

    match best_score {
        Option::Some(bs) => (bs, best_move),
        Option::None => {
            // No move was available although the game is ongoing: return a
            // neutral all-zero score and no move rather than failing.
            let mut zeros: Vec<u64> = Vec::new();
            let mut i: usize = 0;
            while i < game.get_num_players()
                invariant
                    i <= game.num_players,
                    zeros@.len() == i,
                    forall|k: int| 0 <= k < i ==> zeros@[k] == 0u64,
                decreases game.num_players - i,
            {
                zeros.push(0);
                i += 1;
            }
            proof {
                assert(zeros@ =~= zero_score_vec(game.num_players as int));
            }
            (zeros, Option::None)
        },
    }
}

/// Pick the best move for the player to move, searching `search_depth`
/// plies deep. Returns that player's share of the best score vector found,
/// and the move itself (no move when the game is already over, the search
/// depth is zero, or no move is legal).
pub fn minimax_move<S: GameSpec, E: EvaluationFunction>(
    game: &mut Game<S>,
    eval_func: &E,
    search_depth: usize,
) -> (r: (u64, Option<(usize, usize)>))
    requires
        old(game).wf(),
        eval_func.wf(),
        eval_func.spec_num_players() == old(game).num_players as int,
        old(game).state.move_num + search_depth <= usize::MAX,
    ensures
        final(game).state == old(game).state,
        final(game).rules == old(game).rules,
        final(game).num_players == old(game).num_players,
        r.0 <= SCORE_UNIT,
        ({
            let st = spec_status(
                old(game).rules,
                old(game).state.pos(),
                old(game).state.hist(),
                old(game).num_players as int,
            );
            let moves = old(game).rules.spec_valid_moves(
                old(game).state.pos(),
                old(game).num_players as int,
            );
            &&& (st != GameStatus::Ongoing ==> r.1 is None && r.0 == spec_score_of_status(
                st,
                old(game).num_players as int,
            )[old(game).state.pos().to_move.spec_idx()])
            &&& (st == GameStatus::Ongoing && search_depth == 0 ==> r.1 is None)
            &&& (st == GameStatus::Ongoing && search_depth > 0 && moves.len() > 0 ==> r.1 is Some)
            &&& (r.1 matches Some(m) ==> moves.contains(m))
        }),
        eval_func.deterministic() ==> ({
            let model = spec_dfs(
                old(game).rules,
                *eval_func,
                old(game).state.pos(),
                old(game).state.hist(),
                old(game).num_players as int,
                0nat,
                zero_score_vec(old(game).num_players as int),
                search_depth as nat,
            );
            r.0 == model.0[old(game).state.pos().to_move.spec_idx()] && r.1 == model.1
        }),
{
    let num_players = game.get_num_players();
    let mut alphas: Vec<u64> = Vec::new();
    let mut i: usize = 0;
    while i < num_players
        invariant
            i <= num_players,
            alphas@.len() == i,
            forall|k: int| 0 <= k < i ==> alphas@[k] == 0u64,
        decreases num_players - i,
    {
        alphas.push(0);
        i += 1;
    }
    proof {
        assert(alphas@ =~= zero_score_vec(num_players as int));
    }
    let (best_score, best_move) = dfs(game, 0, &mut alphas, eval_func, search_depth);
    let p = game.get_to_move().to_usize();
    (best_score[p], best_move)
}



/// The sibling loop of one exhaustive search frame: like
/// [`spec_dfs_loop`], but with no pruning break and no alpha values.
pub open spec fn spec_dfs_unpruned_loop<S: GameSpec, E: EvaluationFunction>(
    rules: S,
    ev: E,
    pos: Position,
    hist: Seq<Position>,
    n: int,
    d: nat,
    moves: Seq<(usize, usize)>,
    i: nat,
    seen: Seq<(Player, Seq<Seq<BoardCell>>)>,
    best: Option<(Seq<u64>, (usize, usize))>,
    search_depth: nat,
) -> Option<(Seq<u64>, (usize, usize))>
    decreases search_depth - d, 0nat, moves.len() - i,
{
    if i >= moves.len() || d >= search_depth {
        best
    } else {
        let mv = moves[i as int];
        let child = rules.spec_transition(pos, n, mv);
        let key = (child.to_move, child.board);
        if seen.contains(key) {
            spec_dfs_unpruned_loop(
                rules,
                ev,
                pos,
                hist,
                n,
                d,
                moves,
                i + 1,
                seen,
                best,
                search_depth,
            )
        } else {
            let seen2 = seen.push(key);
            let cscore = spec_dfs_unpruned(
                rules,
                ev,
                child,
                seq![pos] + hist,
                n,
                (d + 1) as nat,
                search_depth,
            ).0;
            let p = pos.to_move.spec_idx();
            let better = match best {
                Option::None => true,
                Option::Some(bpair) => cscore[p] > bpair.0[p],
            };
            let best2 = if better {
                Option::Some((cscore, mv))
            } else {
                best
            };
            spec_dfs_unpruned_loop(
                rules,
                ev,
                pos,
                hist,
                n,
                d,
                moves,
                i + 1,
                seen2,
                best2,
                search_depth,
            )
        }
    }
}

/// One exhaustive search frame, mirrored at the specification level: the
/// exact value `dfs_unpruned` returns when the evaluation function is
/// deterministic. It differs from [`spec_dfs`] only in that its sibling
/// loop never breaks off and keeps no alpha values.
pub open spec fn spec_dfs_unpruned<S: GameSpec, E: EvaluationFunction>(
    rules: S,
    ev: E,
    pos: Position,
    hist: Seq<Position>,
    n: int,
    d: nat,
    search_depth: nat,
) -> (Seq<u64>, Option<(usize, usize)>)
    decreases search_depth - d, 1nat, 0nat,
{
    let st = spec_status(rules, pos, hist, n);
    if st != GameStatus::Ongoing {
        (spec_score_of_status(st, n), Option::<(usize, usize)>::None)
    } else if d >= search_depth {
        (ev.spec_evaluate(pos), Option::None)
    } else {
        let moves = rules.spec_valid_moves(pos, n);
        let outcome = spec_dfs_unpruned_loop(
            rules,
            ev,
            pos,
            hist,
            n,
            d,
            moves,
            0,
            Seq::empty(),
            Option::None,
            search_depth,
        );
        match outcome {
            Option::Some(pair) => (pair.0, Option::Some(pair.1)),
            Option::None => (zero_score_vec(n), Option::None),
        }
    }
}

/// The search frame with the pruning break disabled: every sibling is
/// explored unconditionally and the alpha values are not consulted.
/// Exists so that the pruning break can be held against an exhaustive
/// search. Each of the two searches is pinned to its own specification
/// model; that the models agree on the score and the move — pruning
/// soundness — is checked by the test suite, not by proof.
fn dfs_unpruned<S: GameSpec, E: EvaluationFunction>(
    game: &mut Game<S>,
    d: usize,
    eval_func: &E,
    search_depth: usize,
) -> (r: (Vec<u64>, Option<(usize, usize)>))
    requires
        old(game).wf(),
        eval_func.wf(),
        eval_func.spec_num_players() == old(game).num_players as int,
        d <= search_depth,
        old(game).state.move_num + (search_depth - d) <= usize::MAX,
    ensures
        final(game).state == old(game).state,
        final(game).rules == old(game).rules,
        final(game).num_players == old(game).num_players,
        bounded_score_vec(r.0@, old(game).num_players as int),
        valid_score_vec(r.0@, old(game).num_players as int) || r.0@ == zero_score_vec(
            old(game).num_players as int,
        ),
        ({
            let st = spec_status(
                old(game).rules,
                old(game).state.pos(),
                old(game).state.hist(),
                old(game).num_players as int,
            );
            &&& (st != GameStatus::Ongoing ==> r.0@ == spec_score_of_status(
                st,
                old(game).num_players as int,
            ) && r.1 is None)
            &&& (st == GameStatus::Ongoing && d == search_depth ==> r.1 is None
                && valid_score_vec(r.0@, old(game).num_players as int))
            &&& (st == GameStatus::Ongoing && d < search_depth ==> {
                let moves = old(game).rules.spec_valid_moves(
                    old(game).state.pos(),
                    old(game).num_players as int,
                );
                &&& (moves.len() == 0 ==> r.0@ == zero_score_vec(old(game).num_players as int)
                    && r.1 is None)
                &&& (moves.len() > 0 ==> r.1 is Some)
                &&& (r.1 matches Some(m) ==> moves.contains(m))
            })
        }),
        eval_func.deterministic() ==> ({
            let model = spec_dfs_unpruned(
                old(game).rules,
                *eval_func,
                old(game).state.pos(),
                old(game).state.hist(),
                old(game).num_players as int,
                d as nat,
                search_depth as nat,
            );
            r.0@ == model.0 && r.1 == model.1
        }),
    decreases search_depth - d,
{
    let ghost n = old(game).num_players as int;
    let ghost pos0 = old(game).state.pos();
    let ghost hist0 = old(game).state.hist();
    let status = game.get_game_status();
    if status != GameStatus::Ongoing {
        let score = game.get_score();
        proof {
            crate::game_elements::lemma_valid_is_bounded(score@, n);
        }
        return (score, Option::None);
    }
    if d == search_depth {
        let score = eval_func.evaluate(&*game.state);
        proof {
            crate::game_elements::lemma_valid_is_bounded(score@, n);
        }
        return (score, Option::None);
    }

    let player_idx = game.get_to_move().to_usize();
    let moves = game.get_valid_moves();
    let mut best_move: Option<(usize, usize)> = Option::None;
    let mut best_score: Option<Vec<u64>> = Option::None;
    let mut seen: Vec<(Player, Vec<Vec<BoardCell>>)> = Vec::new();

    let ghost target = spec_dfs_unpruned_loop(
        old(game).rules,
        *eval_func,
        pos0,
        hist0,
        n,
        d as nat,
        moves@,
        0,
        Seq::empty(),
        Option::None,
        search_depth as nat,
    );
    proof {
        assert(seen_view(seen@) =~= Seq::<(Player, Seq<Seq<BoardCell>>)>::empty());
    }
    let mut idx: usize = 0;
    while idx < moves.len()
        invariant
            game.wf(),
            game.state == old(game).state,
            game.rules == old(game).rules,
            game.num_players == old(game).num_players,
            n == game.num_players as int,
            pos0 == game.state.pos(),
            hist0 == game.state.hist(),
            eval_func.wf(),
            eval_func.spec_num_players() == n,
            d < search_depth,
            game.state.move_num + (search_depth - d) <= usize::MAX,
            player_idx == pos0.to_move.spec_idx(),
            (player_idx as int) < n,
            moves@ == game.rules.spec_valid_moves(pos0, n),
            idx <= moves@.len(),
            best_move is Some <==> best_score is Some,
            best_score matches Some(bs) ==> bounded_score_vec(bs@, n) && (valid_score_vec(
                bs@,
                n,
            ) || bs@ == zero_score_vec(n)),
            best_move matches Some(m) ==> moves@.contains(m),
            idx > 0 ==> best_score is Some,
            idx == 0 ==> seen@.len() == 0,
            target == spec_dfs_unpruned_loop(
                game.rules,
                *eval_func,
                pos0,
                hist0,
                n,
                d as nat,
                moves@,
                0,
                Seq::empty(),
                Option::None,
                search_depth as nat,
            ),
            eval_func.deterministic() ==> spec_dfs_unpruned_loop(
                game.rules,
                *eval_func,
                pos0,
                hist0,
                n,
                d as nat,
                moves@,
                idx as nat,
                seen_view(seen@),
                model_best(best_score, best_move),
                search_depth as nat,
            ) == target,
        decreases moves@.len() - idx,
    {
        let ghost seen_at = seen_view(seen@);
        let ghost best_at = model_best(best_score, best_move);
        let ghost child = game.rules.spec_transition(pos0, n, moves@[idx as int]);
        let (move_row, move_col) = moves[idx];
        proof {
            assert(moves@[idx as int] == (move_row, move_col));
            assert(moves@.contains((move_row, move_col)));
        }
        game.transition(move_row, move_col);

        if position_seen(&seen, &*game.state) {
            game.undo_transition();
            proof {
                if eval_func.deterministic() {
                    assert(seen_at.contains((child.to_move, child.board)));
                    assert(spec_dfs_unpruned_loop(
                        game.rules,
                        *eval_func,
                        pos0,
                        hist0,
                        n,
                        d as nat,
                        moves@,
                        idx as nat,
                        seen_at,
                        best_at,
                        search_depth as nat,
                    ) == spec_dfs_unpruned_loop(
                        game.rules,
                        *eval_func,
                        pos0,
                        hist0,
                        n,
                        d as nat,
                        moves@,
                        (idx + 1) as nat,
                        seen_at,
                        best_at,
                        search_depth as nat,
                    ));
                }
            }
        } else {
            let key_player = game.state.get_to_move();
            let key_board = clone_board(game.state.get_board());
            let ghost seen_before = seen_view(seen@);
            seen.push((key_player, key_board));
            proof {
                assert(!seen_before.contains((child.to_move, child.board)));
                assert forall|k: int| 0 <= k < seen@.len() implies (#[trigger] seen_view(seen@)[
                k]) == (if k < seen_before.len() {
                    seen_before[k]
                } else {
                    (child.to_move, child.board)
                }) by {
                    assert(seen_view(seen@)[k] == (seen@[k].0, crate::game_elements::board_view(
                        seen@[k].1@,
                    )));
                    if k < seen_before.len() {
                        assert(seen_before[k] == (seen@[k].0, crate::game_elements::board_view(
                            seen@[k].1@,
                        )));
                    }
                }
                assert(seen_view(seen@) =~= seen_before.push((child.to_move, child.board)));
            }
            proof {
                game.rules.lemma_transition(pos0, n, (move_row, move_col));
                assert(game.state.pos().move_num == pos0.move_num + 1);
                assert(game.state.move_num + (search_depth - (d + 1)) <= usize::MAX);
            }
            let (score, _descendant) = dfs_unpruned(game, d + 1, eval_func, search_depth);
            proof {
                if eval_func.deterministic() {
                    assert(score@ == spec_dfs_unpruned(
                        game.rules,
                        *eval_func,
                        child,
                        seq![pos0] + hist0,
                        n,
                        (d + 1) as nat,
                        search_depth as nat,
                    ).0);
                }
            }
            let better = match &best_score {
                Option::None => true,
                Option::Some(bs) => score[player_idx] > bs[player_idx],
            };
            if better {
                best_score = Option::Some(score);
                best_move = Option::Some((move_row, move_col));
            }
            game.undo_transition();
            proof {
                if eval_func.deterministic() {
                    assert(spec_dfs_unpruned_loop(
                        game.rules,
                        *eval_func,
                        pos0,
                        hist0,
                        n,
                        d as nat,
                        moves@,
                        idx as nat,
                        seen_at,
                        best_at,
                        search_depth as nat,
                    ) == spec_dfs_unpruned_loop(
                        game.rules,
                        *eval_func,
                        pos0,
                        hist0,
                        n,
                        d as nat,
                        moves@,
                        (idx + 1) as nat,
                        seen_view(seen@),
                        model_best(best_score, best_move),
                        search_depth as nat,
                    ));
                }
            }
        }
        idx += 1;
    }

    match best_score {
        Option::Some(bs) => (bs, best_move),
        Option::None => {
            let mut zeros: Vec<u64> = Vec::new();
            let mut i: usize = 0;
            while i < game.get_num_players()
                invariant
                    i <= game.num_players,
                    zeros@.len() == i,
                    forall|k: int| 0 <= k < i ==> zeros@[k] == 0u64,
                decreases game.num_players - i,
            {
                zeros.push(0);
                i += 1;
            }
            proof {
                assert(zeros@ =~= zero_score_vec(game.num_players as int));
            }
            (zeros, Option::None)
        },
    }
}

/// `minimax_move` with the pruning break disabled: it explores every
/// sibling unconditionally and so does strictly more work. It is pinned to
/// its own exhaustive specification model; that this model and the pruned
/// one agree on the score and the move — pruning soundness — is checked by
/// the test suite, not by proof.
pub fn minimax_move_unpruned<S: GameSpec, E: EvaluationFunction>(
    game: &mut Game<S>,
    eval_func: &E,
    search_depth: usize,
) -> (r: (u64, Option<(usize, usize)>))
    requires
        old(game).wf(),
        eval_func.wf(),
        eval_func.spec_num_players() == old(game).num_players as int,
        old(game).state.move_num + search_depth <= usize::MAX,
    ensures
        final(game).state == old(game).state,
        final(game).rules == old(game).rules,
        final(game).num_players == old(game).num_players,
        r.0 <= SCORE_UNIT,
        ({
            let st = spec_status(
                old(game).rules,
                old(game).state.pos(),
                old(game).state.hist(),
                old(game).num_players as int,
            );
            let moves = old(game).rules.spec_valid_moves(
                old(game).state.pos(),
                old(game).num_players as int,
            );
            &&& (st != GameStatus::Ongoing ==> r.1 is None && r.0 == spec_score_of_status(
                st,
                old(game).num_players as int,
            )[old(game).state.pos().to_move.spec_idx()])
            &&& (st == GameStatus::Ongoing && search_depth == 0 ==> r.1 is None)
            &&& (st == GameStatus::Ongoing && search_depth > 0 && moves.len() > 0 ==> r.1 is Some)
            &&& (r.1 matches Some(m) ==> moves.contains(m))
        }),
        eval_func.deterministic() ==> ({
            let model = spec_dfs_unpruned(
                old(game).rules,
                *eval_func,
                old(game).state.pos(),
                old(game).state.hist(),
                old(game).num_players as int,
                0nat,
                search_depth as nat,
            );
            r.0 == model.0[old(game).state.pos().to_move.spec_idx()] && r.1 == model.1
        }),
{
    let (best_score, best_move) = dfs_unpruned(game, 0, eval_func, search_depth);
    let p = game.get_to_move().to_usize();
    (best_score[p], best_move)
}

} // verus!
