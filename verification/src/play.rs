//! Whole games: a state played to its end by one of the policies.

use rand::rngs::SmallRng;
use std::time::Duration;
use vstd::prelude::*;
use crate::maze::MazeState;
use crate::grid::{grid_total, lemma_grid_total_nonneg};
use crate::model::{Action, MazeView};
use crate::policy::{greedy, greedy_action, random_action};
use crate::search::{chokudai_search_action_with_time_threshold, failure, SearchError};

verus! {

/// The state in which a game ends when every move is the one-ply choice.
pub open spec fn greedy_end(state: MazeView) -> MazeView
    decreases state.end_turn - state.turn,
{
    if state.turn >= state.end_turn {
        state
    } else {
        greedy_end(state.next(greedy(state)))
    }
}

/// The state reached from `state` by the actions of `path`, in turn.
pub open spec fn reach(state: MazeView, path: Seq<Action>) -> MazeView
    decreases path.len(),
{
    if path.len() == 0 {
        state
    } else {
        reach(state, path.drop_last()).next(path.last())
    }
}

/// Every action of `path` is legal where it is taken, and is taken where
/// the game is not over.
pub open spec fn legal_path(state: MazeView, path: Seq<Action>) -> bool
    decreases path.len(),
{
    if path.len() == 0 {
        true
    } else {
        let before = reach(state, path.drop_last());
        legal_path(state, path.drop_last()) && !before.is_done() && before.legal(path.last())
    }
}

/// `score` is the final score of a game played from `state` to its end by
/// legal actions.
pub open spec fn final_score(state: MazeView, score: int) -> bool {
    exists|path: Seq<Action>|
        legal_path(state, path) && (#[trigger] reach(state, path)).is_done() && reach(
            state,
            path,
        ).game_score == score
}

/// A score that a game from `state` can end with: at least the score of
/// `state`, and at most that score and all that lies on the grid.
pub open spec fn possible_score(state: MazeView, score: int) -> bool {
    state.game_score <= score <= state.game_score + grid_total(state.points)
}

/// Plays the game to its end by one-ply choices and returns the final score.
pub fn play_greedy<const H: usize, const W: usize, const END_TURN: usize>(
    state: &MazeState<H, W, END_TURN>,
) -> (score: i32)
    requires
        state@.wf(),
        !state@.stuck(),
    ensures
        score == greedy_end(state@).game_score,
        final_score(state@, score as int),
{
    let mut now = *state;
    let ghost mut taken: Seq<Action> = Seq::empty();
    while !now.is_done()
        invariant
            now@.wf(),
            !now@.stuck(),
            legal_path(state@, taken),
            now@ == reach(state@, taken),
            greedy_end(now@) == greedy_end(state@),
        decreases now@.end_turn - now@.turn,
    {
        let action = greedy_action(&now);
        proof {
            now@.lemma_next_wf(action);
            now@.lemma_next_board_ok(action);
            now@.lemma_stuck();
            now@.next(action).lemma_stuck();
            assert(taken.push(action).drop_last() =~= taken);
            taken = taken.push(action);
        }
        now.advance(action);
    }
    assert(reach(state@, taken).is_done());
    now.game_score()
}

/// Plays the game to its end by random legal moves and returns the final
/// score.
pub fn play_random<const H: usize, const W: usize, const END_TURN: usize>(
    state: &MazeState<H, W, END_TURN>,
    rng: &mut SmallRng,
) -> (score: i32)
    requires
        state@.wf(),
        !state@.stuck(),
    ensures
        final_score(state@, score as int),
        possible_score(state@, score as int),
{
    let mut now = *state;
    let ghost mut taken: Seq<Action> = Seq::empty();
    proof {
        lemma_grid_total_nonneg(state@.points, state@.height(), state@.width());
    }
    while !now.is_done()
        invariant
            now@.wf(),
            !now@.stuck(),
            legal_path(state@, taken),
            now@ == reach(state@, taken),
            state@.game_score <= now@.game_score,
            now@.game_score + grid_total(now@.points) == state@.game_score + grid_total(
                state@.points,
            ),
        decreases now@.end_turn - now@.turn,
    {
        let action = random_action(&now, rng);
        proof {
            now@.lemma_next_wf(action);
            now@.lemma_next_board_ok(action);
            now@.lemma_stuck();
            now@.next(action).lemma_stuck();
            assert(taken.push(action).drop_last() =~= taken);
            taken = taken.push(action);
        }
        now.advance(action);
    }
    assert(reach(state@, taken).is_done());
    proof {
        lemma_grid_total_nonneg(now@.points, now@.height(), now@.width());
    }
    now.game_score()
}

/// Plays the game to its end, each move found by a search of
/// `time_threshold`, and returns the final score. A game that is over at
/// the start needs no search and cannot fail; any other fails exactly as its
/// first search does.
pub fn play_chokudai<const H: usize, const W: usize, const END_TURN: usize>(
    state: &MazeState<H, W, END_TURN>,
    beam_width: i32,
    beam_depth: usize,
    time_threshold: Duration,
) -> (result: Result<i32, SearchError>)
    requires
        state@.wf(),
        beam_depth < usize::MAX,
    ensures
        match result {
            Ok(score) => {
                &&& state@.is_done() || failure(state@, beam_width as int, beam_depth as int)
                    is None
                &&& final_score(state@, score as int)
                &&& possible_score(state@, score as int)
                &&& state@.is_done() ==> score == state@.game_score
            },
            Err(error) => !state@.is_done() && failure(
                state@,
                beam_width as int,
                beam_depth as int,
            ) == Some(error),
        },
{
    let mut now = *state;
    let ghost mut taken: Seq<Action> = Seq::empty();
    proof {
        lemma_grid_total_nonneg(state@.points, state@.height(), state@.width());
        state@.lemma_stuck();
    }
    while !now.is_done()
        invariant
            now@.wf(),
            beam_depth < usize::MAX,
            state@.wf(),
            now@.stuck() == state@.stuck(),
            legal_path(state@, taken),
            now@ == reach(state@, taken),
            state@.game_score <= now@.game_score,
            now@.game_score + grid_total(now@.points) == state@.game_score + grid_total(
                state@.points,
            ),
            now@ != state@ ==> !state@.is_done() && failure(
                state@,
                beam_width as int,
                beam_depth as int,
            ) is None,
        decreases now@.end_turn - now@.turn,
    {
        let action = match chokudai_search_action_with_time_threshold(
            &now,
            beam_width,
            beam_depth,
            time_threshold,
        ) {
            Ok(action) => action,
            Err(error) => {
                return Err(error);
            },
        };
        proof {
            now@.lemma_next_wf(action);
            now@.lemma_next_board_ok(action);
            now@.lemma_stuck();
            now@.next(action).lemma_stuck();
            assert(taken.push(action).drop_last() =~= taken);
            taken = taken.push(action);
        }
        now.advance(action);
    }
    proof {
        lemma_grid_total_nonneg(now@.points, now@.height(), now@.width());
        assert(reach(state@, taken).is_done());
    }
    Ok(now.game_score())
}

} // verus!
