//! The two baseline policies: the one-ply choice and the random choice.

use rand::rngs::SmallRng;
use vstd::prelude::*;
use crate::maze::MazeState;
use crate::model::{Action, MazeView, ScoreType, ACTION_COUNT};
use crate::rng::next_u32;

verus! {

/// A bound on evaluations: every state is evaluated above `-INF`.
pub const INF: ScoreType = 1_000_000_000;

/// `action` is the one-ply choice at `state`: legal, leading to a score that
/// no legal action exceeds, and the lowest-numbered action that does so.
pub open spec fn is_greedy(state: MazeView, action: Action) -> bool {
    &&& state.legal(action)
    &&& forall|other: Action| #[trigger]
        state.legal(other) ==> state.next(other).game_score <= state.next(action).game_score
    &&& forall|other: Action| #[trigger]
        state.legal(other) && other < action ==> state.next(other).game_score < state.next(
            action,
        ).game_score
}

/// The one-ply choice at `state`.
pub open spec fn greedy(state: MazeView) -> Action {
    choose|action: Action| is_greedy(state, action)
}

/// A state has at most one one-ply choice, and `greedy` names it.
pub proof fn lemma_greedy_unique(state: MazeView, action: Action)
    requires
        is_greedy(state, action),
    ensures
        greedy(state) == action,
        state.legal(greedy(state)),
{
    let other = greedy(state);
    assert(is_greedy(state, other));
    if other < action {
        assert(state.legal(other));
    } else if action < other {
        assert(state.legal(action));
    }
}

/// The one-ply choice among the first `n` actions, if one of them is legal.
spec fn best_below(state: MazeView, n: nat) -> Option<Action>
    decreases n,
{
    if n == 0 {
        None
    } else {
        let last = (n - 1) as Action;
        match best_below(state, (n - 1) as nat) {
            Some(best) => if state.legal(last) && state.next(last).game_score > state.next(
                best,
            ).game_score {
                Some(last)
            } else {
                Some(best)
            },
            None => if state.legal(last) {
                Some(last)
            } else {
                None
            },
        }
    }
}

/// `best_below` is legal, leads to a score that no legal action among the
/// first `n` exceeds, and is the lowest-numbered action that does so.
proof fn lemma_best_below(state: MazeView, n: nat)
    ensures
        match best_below(state, n) {
            Some(best) => {
                &&& best < n
                &&& state.legal(best)
                &&& forall|other: Action| #[trigger]
                    state.legal(other) && other < n ==> state.next(other).game_score <= state.next(
                        best,
                    ).game_score
                &&& forall|other: Action| #[trigger]
                    state.legal(other) && other < best ==> state.next(other).game_score < state.next(
                        best,
                    ).game_score
            },
            None => forall|other: Action| other < n ==> !#[trigger] state.legal(other),
        },
    decreases n,
{
    if n > 0 {
        lemma_best_below(state, (n - 1) as nat);
    }
}

/// A state that is not stuck has a one-ply choice.
pub proof fn lemma_greedy_exists(state: MazeView)
    requires
        !state.stuck(),
    ensures
        is_greedy(state, greedy(state)),
        state.legal(greedy(state)),
{
    state.lemma_legal_actions();
    lemma_best_below(state, ACTION_COUNT as nat);
    let witness = state.legal_actions()[0];
    assert(state.legal_actions().contains(witness));
    assert(state.legal(witness));
    let best = best_below(state, ACTION_COUNT as nat)->0;
    assert(is_greedy(state, best));
}

/// The action whose successor has the highest evaluation; among several
/// such, the lowest-numbered.
pub fn greedy_action<const H: usize, const W: usize, const END_TURN: usize>(
    state: &MazeState<H, W, END_TURN>,
) -> (action: Action)
    requires
        state@.wf(),
        !state@.stuck(),
    ensures
        is_greedy(state@, action),
        action == greedy(state@),
{
    let legal_actions = state.legal_actions();
    let mut best_score: ScoreType = -INF;
    let mut best_action: Action = 0;
    let mut i: usize = 0;
    proof {
        state@.lemma_legal_actions();
    }
    while i < legal_actions.len()
        invariant
            i <= legal_actions.len(),
            state@.wf(),
            legal_actions@ == state@.legal_actions(),
            forall|a: Action|
                #![trigger state@.legal_actions().contains(a)]
                #![trigger state@.legal(a)]
                state@.legal_actions().contains(a) <==> state@.legal(a),
            forall|j: int, k: int|
                0 <= j < k < legal_actions@.len() ==> legal_actions@[j] < legal_actions@[k],
            i == 0 ==> best_score == -INF,
            i > 0 ==> {
                &&& exists|j: int| 0 <= j < i && legal_actions@[j] == best_action
                &&& best_score == state@.next(best_action).game_score
                &&& forall|j: int|
                    0 <= j < i ==> state@.next(#[trigger] legal_actions@[j]).game_score
                        <= best_score
                &&& forall|j: int|
                    0 <= j < i && #[trigger] legal_actions@[j] < best_action ==> state@.next(
                        legal_actions@[j],
                    ).game_score < best_score
            },
        decreases legal_actions.len() - i,
    {
        let action: Action = legal_actions[i];
        assert(state@.legal_actions().contains(action));
        proof {
            state@.lemma_next_board_ok(action);
        }
        let mut now_state = *state;
        now_state.advance(action);
        now_state.evaluate_score();
        if now_state.evaluated_score() > best_score {
            best_score = now_state.evaluated_score();
            best_action = action;
            assert(legal_actions@[i as int] == best_action);
        } else {
            let ghost j = choose|j: int| 0 <= j < i && legal_actions@[j] == best_action;
            assert(legal_actions@[j] == best_action);
        }
        i += 1;
    }
    proof {
        assert(i > 0);
        assert forall|other: Action| #[trigger] state@.legal(other) implies state@.next(
            other,
        ).game_score <= state@.next(best_action).game_score by {
            assert(state@.legal_actions().contains(other));
            let j = choose|j: int| 0 <= j < legal_actions@.len() && legal_actions@[j] == other;
            assert(state@.next(legal_actions@[j]).game_score <= best_score);
        }
        assert forall|other: Action| #[trigger]
            state@.legal(other) && other < best_action implies state@.next(other).game_score
            < state@.next(best_action).game_score by {
            assert(state@.legal_actions().contains(other));
            let j = choose|j: int| 0 <= j < legal_actions@.len() && legal_actions@[j] == other;
            assert(legal_actions@[j] < best_action);
        }
        let j = choose|j: int| 0 <= j < i && legal_actions@[j] == best_action;
        assert(state@.legal_actions().contains(legal_actions@[j]));
        lemma_greedy_unique(state@, best_action);
    }
    best_action
}

/// The legal action that `draw` selects: the legal actions are numbered
/// from 0 in ascending order, and `draw` is reduced to one of the numbers.
pub open spec fn picked(state: MazeView, draw: u32) -> Action {
    state.legal_actions()[draw as int % state.legal_actions().len() as int]
}

/// The legal action that `draw` selects.
pub fn pick_action<const H: usize, const W: usize, const END_TURN: usize>(
    state: &MazeState<H, W, END_TURN>,
    draw: u32,
) -> (action: Action)
    requires
        state@.board_ok(),
        !state@.stuck(),
    ensures
        action == picked(state@, draw),
        state@.legal(action),
{
    let legal_actions = state.legal_actions();
    let action: Action = legal_actions[draw as usize % legal_actions.len()];
    proof {
        state@.lemma_legal_actions();
        assert(state@.legal_actions().contains(action));
    }
    action
}

/// A legal action chosen by the generator's next number.
pub fn random_action<const H: usize, const W: usize, const END_TURN: usize>(
    state: &MazeState<H, W, END_TURN>,
    rng: &mut SmallRng,
) -> (action: Action)
    requires
        state@.board_ok(),
        !state@.stuck(),
    ensures
        state@.legal(action),
        exists|draw: u32| action == #[trigger] picked(state@, draw),
{
    let draw: u32 = next_u32(rng);
    let action = pick_action(state, draw);
    assert(action == picked(state@, draw));
    action
}

} // verus!
