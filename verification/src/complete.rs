//! A search that has nothing left to expand has looked at every game, and
//! reports the first action of a best one.

use vstd::prelude::*;
use crate::frontier::{lemma_queue_push, lemma_rank, queue_push, queue_sorted, rank};
use crate::laws::{horizon, lemma_horizon, lemma_path_prefix, lemma_tracked, tracked_score};
use crate::levels::{
    can_expand, child, chosen, expand, expand_level, frontiers_after, lemma_expand_level_traced,
    lemma_expand_traced, lemma_frontiers_traced, lemma_node_at, lemma_reached, node_at, path_ok,
    push_children, reached, reached_by, search_after, seed, start, sweep_from, traced, Levels,
};
use crate::model::{Action, MazeView};

verus! {

/// Every frontier lists its nodes by evaluation, highest first.
pub open spec fn all_sorted(levels: Levels) -> bool {
    forall|t: int| 0 <= t < levels.len() ==> queue_sorted(#[trigger] levels[t])
}

/// The node at the end of the first `k` actions of `path` waits in the
/// frontier of depth `k`.
pub open spec fn waits_at(levels: Levels, root: MazeView, path: Seq<Action>, k: int) -> bool {
    0 <= k <= path.len() && k < levels.len() && levels[k].contains(node_at(root, path.take(k)))
}

/// Some node on the way along `path` waits in the frontier of its depth.
pub open spec fn covered(levels: Levels, root: MazeView, path: Seq<Action>) -> bool {
    exists|k: int| #[trigger] waits_at(levels, root, path, k)
}

/// No game of `len` actions has been lost: on the way along every sound
/// path of that length some node still waits.
pub open spec fn complete(levels: Levels, root: MazeView, len: int) -> bool {
    forall|path: Seq<Action>|
        path.len() == len && #[trigger] path_ok(root, path) ==> covered(levels, root, path)
}

/// The queue that a node has joined holds that node and what it held.
pub proof fn lemma_queue_push_contains(queue: Seq<MazeView>, node: MazeView, other: MazeView)
    ensures
        queue_push(queue, node).contains(other) <==> (queue.contains(other) || other == node),
{
    let pos = rank(queue, node.evaluated_score) as int;
    let after = queue_push(queue, node);
    lemma_rank(queue, node.evaluated_score);
    if queue.contains(other) {
        let i = choose|i: int| 0 <= i < queue.len() && queue[i] == other;
        if i < pos {
            assert(after[i] == other);
        } else {
            assert(after[i + 1] == other);
        }
    }
    if other == node {
        assert(after[pos] == other);
    }
    if after.contains(other) {
        let j = choose|j: int| 0 <= j < after.len() && after[j] == other;
        if j < pos {
            assert(queue[j] == other);
        } else if j > pos {
            assert(queue[j - 1] == other);
        }
    }
}

/// The queue that children have joined holds each of them and what it held.
pub proof fn lemma_push_children_contains(
    queue: Seq<MazeView>,
    node: MazeView,
    actions: Seq<Action>,
    level: int,
    other: MazeView,
)
    ensures
        queue.contains(other) ==> push_children(queue, node, actions, level).contains(other),
        forall|j: int|
            0 <= j < actions.len() && other == child(node, #[trigger] actions[j], level)
                ==> push_children(queue, node, actions, level).contains(other),
    decreases actions.len(),
{
    if actions.len() > 0 {
        let first = child(node, actions[0], level);
        let grown = queue_push(queue, first);
        let rest = actions.drop_first();
        lemma_queue_push_contains(queue, first, other);
        lemma_push_children_contains(grown, node, rest, level, other);
        assert forall|j: int|
            0 <= j < actions.len() && other == child(node, #[trigger] actions[j], level) implies push_children(
            queue,
            node,
            actions,
            level,
        ).contains(other) by {
            if j > 0 {
                assert(rest[j - 1] == actions[j]);
            }
        }
    }
}

/// Children join a sorted queue and leave it sorted.
pub proof fn lemma_push_children_sorted(
    queue: Seq<MazeView>,
    node: MazeView,
    actions: Seq<Action>,
    level: int,
)
    requires
        queue_sorted(queue),
    ensures
        queue_sorted(push_children(queue, node, actions, level)),
    decreases actions.len(),
{
    if actions.len() > 0 {
        let first = child(node, actions[0], level);
        lemma_queue_push(queue, first);
        lemma_push_children_sorted(queue_push(queue, first), node, actions.drop_first(), level);
    }
}

/// An expansion step loses no game and leaves every frontier sorted.
pub proof fn lemma_expand_complete(levels: Levels, t: int, root: MazeView, depth: nat)
    requires
        root.wf(),
        traced(levels, root),
        all_sorted(levels),
        complete(levels, root, horizon(root, depth)),
        levels.len() == depth + 1,
        0 <= t < depth,
        can_expand(levels, t),
    ensures
        all_sorted(expand(levels, t)),
        complete(expand(levels, t), root, horizon(root, depth)),
{
    let d = horizon(root, depth);
    let node = levels[t][0];
    let actions = node.legal_actions();
    let after = expand(levels, t);
    lemma_horizon(levels, root, depth);
    node.lemma_legal_actions();
    assert forall|u: int| 0 <= u < after.len() implies queue_sorted(#[trigger] after[u]) by {
        assert(queue_sorted(levels[u]));
        if u == t {
            assert forall|i: int, j: int| 0 <= i < j < after[u].len() implies (
            #[trigger] after[u][i]).evaluated_score >= (#[trigger] after[u][j]).evaluated_score by {
                assert(after[u][i] == levels[t][i + 1]);
                assert(after[u][j] == levels[t][j + 1]);
            }
        } else if u == t + 1 {
            lemma_push_children_sorted(levels[t + 1], node, actions, t);
        }
    }
    assert forall|path: Seq<Action>| path.len() == d && #[trigger] path_ok(root, path) implies covered(
        after,
        root,
        path,
    ) by {
        let k = choose|k: int| #[trigger] waits_at(levels, root, path, k);
        let waiting = node_at(root, path.take(k));
        if k == t && waiting == node {
            if t < d {
                let action = path[t];
                lemma_path_prefix(root, path, t + 1);
                assert(path.take(t + 1).drop_last() =~= path.take(t));
                assert(path.take(t + 1).last() == action);
                assert(node.legal(action));
                assert(actions.contains(action));
                let j = choose|j: int| 0 <= j < actions.len() && actions[j] == action;
                lemma_push_children_contains(
                    levels[t + 1],
                    node,
                    actions,
                    t,
                    child(node, action, t),
                );
                assert(child(node, actions[j], t) == node_at(root, path.take(t + 1)));
                assert(waits_at(after, root, path, t + 1));
            } else {
                assert(false);
            }
        } else if k == t {
            let i = choose|i: int| 0 <= i < levels[t].len() && levels[t][i] == waiting;
            assert(after[t][i - 1] == waiting);
            assert(waits_at(after, root, path, k));
        } else if k == t + 1 {
            lemma_push_children_contains(levels[t + 1], node, actions, t, waiting);
            assert(waits_at(after, root, path, k));
        } else {
            assert(after[k] == levels[k]);
            assert(waits_at(after, root, path, k));
        }
    }
}

/// Expansion steps at one depth lose no game and leave every frontier
/// sorted.
pub proof fn lemma_expand_level_complete(
    levels: Levels,
    t: int,
    steps: nat,
    root: MazeView,
    depth: nat,
)
    requires
        root.wf(),
        traced(levels, root),
        all_sorted(levels),
        complete(levels, root, horizon(root, depth)),
        levels.len() == depth + 1,
        0 <= t < depth,
    ensures
        all_sorted(expand_level(levels, t, steps)),
        complete(expand_level(levels, t, steps), root, horizon(root, depth)),
    decreases steps,
{
    if steps != 0 && can_expand(levels, t) {
        lemma_expand_traced(levels, t, root);
        lemma_expand_complete(levels, t, root, depth);
        lemma_expand_level_complete(expand(levels, t), t, (steps - 1) as nat, root, depth);
    }
}

/// The rest of a sweep loses no game and leaves every frontier sorted.
pub proof fn lemma_sweep_from_complete(
    levels: Levels,
    t: int,
    beam_width: nat,
    root: MazeView,
    depth: nat,
)
    requires
        root.wf(),
        traced(levels, root),
        all_sorted(levels),
        complete(levels, root, horizon(root, depth)),
        levels.len() == depth + 1,
        0 <= t <= depth,
    ensures
        all_sorted(sweep_from(levels, t, depth as int, beam_width)),
        complete(sweep_from(levels, t, depth as int, beam_width), root, horizon(root, depth)),
    decreases depth - t,
{
    if t < depth {
        let mid = expand_level(levels, t, beam_width);
        lemma_expand_level_traced(levels, t, beam_width, root);
        lemma_expand_level_complete(levels, t, beam_width, root, depth);
        lemma_sweep_from_complete(mid, t + 1, beam_width, root, depth);
    }
}

/// After any number of sweeps no game has been lost and every frontier is
/// sorted.
pub proof fn lemma_frontiers_complete(root: MazeView, beam_width: nat, depth: nat, count: nat)
    requires
        root.wf(),
    ensures
        all_sorted(frontiers_after(root, beam_width, depth, count)),
        complete(frontiers_after(root, beam_width, depth, count), root, horizon(root, depth)),
    decreases count,
{
    let levels = frontiers_after(root, beam_width, depth, count);
    if count == 0 {
        assert forall|path: Seq<Action>|
            path.len() == horizon(root, depth) && #[trigger] path_ok(root, path) implies covered(
            levels,
            root,
            path,
        ) by {
            assert(path.take(0) =~= Seq::<Action>::empty());
            assert(levels[0][0] == seed(root));
            assert(waits_at(levels, root, path, 0));
        }
    } else {
        let before = frontiers_after(root, beam_width, depth, (count - 1) as nat);
        lemma_frontiers_complete(root, beam_width, depth, (count - 1) as nat);
        lemma_frontiers_traced(root, beam_width, depth, (count - 1) as nat);
        lemma_sweep_from_complete(before, 0, beam_width, root, depth);
    }
}

/// A search is exhausted when no node waits above the horizon: every game
/// has been played to the horizon.
pub open spec fn exhausted(levels: Levels, root: MazeView, depth: nat) -> bool {
    forall|t: int| 0 <= t < horizon(root, depth) ==> (#[trigger] levels[t]).len() == 0
}

/// A search is exhausted exactly when no frontier has a node to expand, so
/// that a sweep changes nothing.
pub proof fn lemma_exhausted_is_idle(levels: Levels, root: MazeView, depth: nat)
    requires
        root.wf(),
        traced(levels, root),
        levels.len() == depth + 1,
    ensures
        exhausted(levels, root, depth) <==> (forall|t: int|
            0 <= t < depth ==> !#[trigger] can_expand(levels, t)),
{
    lemma_horizon(levels, root, depth);
    let d = horizon(root, depth);
    if exhausted(levels, root, depth) {
        assert forall|t: int| 0 <= t < depth implies !#[trigger] can_expand(levels, t) by {
            if t < d {
                assert(levels[t].len() == 0);
            } else if t > d {
                assert(levels[t].len() == 0);
            }
        }
    }
    if forall|t: int| 0 <= t < depth ==> !#[trigger] can_expand(levels, t) {
        assert forall|t: int| 0 <= t < d implies (#[trigger] levels[t]).len() == 0 by {
            assert(!can_expand(levels, t));
        }
    }
}

/// An exhausted search reports a best game. There is a sound path from the
/// root to the horizon that no other such path beats in score; the search
/// reports the node at its end, and where the horizon is not the root
/// itself, the action recommended is the first action of that path.
pub proof fn lemma_exhausted_search_is_best(
    root: MazeView,
    beam_width: nat,
    depth: nat,
    count: nat,
) -> (best: Seq<Action>)
    requires
        root.wf(),
        !root.stuck(),
        beam_width >= 1,
        exhausted(frontiers_after(root, beam_width, depth, count), root, depth),
    ensures
        best.len() == horizon(root, depth),
        path_ok(root, best),
        chosen(frontiers_after(root, beam_width, depth, count)) == Some(node_at(root, best)),
        best.len() > 0 ==> search_after(root, beam_width, depth, count) == best[0],
        forall|path: Seq<Action>|
            path.len() == horizon(root, depth) && #[trigger] path_ok(root, path) ==> node_at(
                root,
                path,
            ).game_score <= node_at(root, best).game_score,
{
    let levels = frontiers_after(root, beam_width, depth, count);
    let d = horizon(root, depth);
    lemma_tracked(root, beam_width, depth, count);
    lemma_frontiers_complete(root, beam_width, depth, count);
    lemma_horizon(levels, root, depth);
    if count == 0 {
        assert(levels[0].len() > 0);
        assert(d == 0);
    }
    let top = levels[d][0];
    assert(chosen(levels) == Some(top));
    assert(reached(root, top, d));
    let best = choose|best: Seq<Action>| #[trigger] reached_by(root, best, top, d);
    lemma_node_at(root, best);
    assert forall|path: Seq<Action>| path.len() == d && #[trigger] path_ok(root, path) implies node_at(
        root,
        path,
    ).game_score <= node_at(root, best).game_score by {
        let k = choose|k: int| #[trigger] waits_at(levels, root, path, k);
        assert(levels[k].len() > 0);
        assert(k == d);
        assert(path.take(d) =~= path);
        let i = choose|i: int| 0 <= i < levels[d].len() && levels[d][i] == node_at(root, path);
        assert(queue_sorted(levels[d]));
        if i > 0 {
            assert(levels[d][0].evaluated_score >= levels[d][i].evaluated_score);
        }
        lemma_node_at(root, path);
    }
    best
}

} // verus!
