//! What holds of a search whatever its root, its width, its depth and the
//! number of its sweeps.

use vstd::prelude::*;
use crate::frontier::{lemma_queue_push, lemma_rank, queue_push, rank};
use crate::levels::{
    can_expand, child, chosen, chosen_tag, deepest, expand, expand_level, frontiers_after,
    lemma_chosen_tag, lemma_deepest_below, lemma_expand_traced, lemma_frontiers_traced,
    lemma_node_at, lemma_reached, node_at, path_ok, push_children, reached, reached_by,
    search_after, seed, sweep_from, traced, Levels,
};
use crate::model::{Action, MazeView, ACTION_COUNT};
use crate::policy::{greedy, lemma_greedy_exists, lemma_greedy_unique};

verus! {

/// The action recommended after any number of sweeps is legal at the root,
/// whenever the root is well-formed and has a legal action at all.
pub proof fn lemma_search_after_legal(root: MazeView, beam_width: nat, depth: nat, count: nat)
    requires
        root.wf(),
        !root.stuck(),
    ensures
        root.legal(search_after(root, beam_width, depth, count)),
{
    lemma_frontiers_traced(root, beam_width, depth, count);
    lemma_chosen_tag(frontiers_after(root, beam_width, depth, count), root);
    if chosen_tag(frontiers_after(root, beam_width, depth, count)) is None {
        lemma_greedy_exists(root);
    }
}

/// The depth of the deepest frontier that a search from `root` to depth
/// `depth` can fill: the depth limit, or the number of turns left if that is
/// less.
pub open spec fn horizon(root: MazeView, depth: nat) -> int {
    if depth <= root.end_turn - root.turn {
        depth as int
    } else {
        root.end_turn - root.turn
    }
}

/// The evaluation of the node that a search reports.
pub open spec fn tracked_score(levels: Levels) -> int {
    chosen(levels)->0.evaluated_score
}

/// A sound path is no longer than the game has turns left.
pub proof fn lemma_path_len(root: MazeView, path: Seq<Action>)
    requires
        root.wf(),
        path_ok(root, path),
    ensures
        path.len() <= root.end_turn - root.turn,
{
    if path.len() > 0 {
        lemma_node_at(root, path.drop_last());
    }
}

/// The start of a sound path is a sound path.
pub proof fn lemma_path_prefix(root: MazeView, path: Seq<Action>, n: int)
    requires
        path_ok(root, path),
        0 <= n <= path.len(),
    ensures
        path_ok(root, path.take(n)),
    decreases path.len() - n,
{
    if n < path.len() {
        lemma_path_prefix(root, path, n + 1);
        assert(path.take(n + 1).drop_last() =~= path.take(n));
    } else {
        assert(path.take(n) =~= path);
    }
}

/// Every node that waits in a frontier below the root carries as its tag
/// the first action of a path by which the search reached it: the tag that
/// the child of the root on that path was given, an action legal at the
/// root. This holds after any number of sweeps.
pub proof fn lemma_tag_is_first_action(
    root: MazeView,
    beam_width: nat,
    depth: nat,
    count: nat,
    t: int,
    i: int,
) -> (path: Seq<Action>)
    requires
        root.wf(),
        0 < t < frontiers_after(root, beam_width, depth, count).len(),
        0 <= i < frontiers_after(root, beam_width, depth, count)[t].len(),
    ensures
        reached_by(root, path, frontiers_after(root, beam_width, depth, count)[t][i], t),
        frontiers_after(root, beam_width, depth, count)[t][i].first_action == Some(path[0]),
        node_at(root, path.take(1)).first_action == Some(path[0]),
        root.legal(path[0]),
{
    let levels = frontiers_after(root, beam_width, depth, count);
    lemma_frontiers_traced(root, beam_width, depth, count);
    assert(reached(root, levels[t][i], t));
    let path = choose|path: Seq<Action>| #[trigger] reached_by(root, path, levels[t][i], t);
    lemma_node_at(root, path);
    lemma_path_prefix(root, path, 1);
    lemma_node_at(root, path.take(1));
    path
}

/// The frontiers beyond the horizon are empty, and every node at the
/// horizon, if that is above the depth limit, is at the end of its game.
pub proof fn lemma_horizon(levels: Levels, root: MazeView, depth: nat)
    requires
        root.wf(),
        traced(levels, root),
        levels.len() == depth + 1,
    ensures
        0 <= horizon(root, depth) <= depth,
        forall|t: int| horizon(root, depth) < t < levels.len() ==> (#[trigger] levels[t]).len() == 0,
        horizon(root, depth) < depth ==> !can_expand(levels, horizon(root, depth)),
        forall|t: int|
            0 <= t < horizon(root, depth) && (#[trigger] levels[t]).len() > 0 ==> can_expand(
                levels,
                t,
            ),
{
    let d = horizon(root, depth);
    assert forall|t: int| d < t < levels.len() implies (#[trigger] levels[t]).len() == 0 by {
        if levels[t].len() > 0 {
            assert(reached(root, levels[t][0], t));
            let path = choose|path: Seq<Action>| #[trigger] reached_by(root, path, levels[t][0], t);
            lemma_path_len(root, path);
        }
    }
    if d < depth && levels[d].len() > 0 {
        assert(reached(root, levels[d][0], d));
        lemma_reached(root, levels[d][0], d);
    }
    assert forall|t: int| 0 <= t < d && (#[trigger] levels[t]).len() > 0 implies can_expand(
        levels,
        t,
    ) by {
        assert(reached(root, levels[t][0], t));
        lemma_reached(root, levels[t][0], t);
    }
}

/// Where the frontier at the horizon is not empty, its best node is the
/// node that the search reports.
pub proof fn lemma_chosen_at_horizon(levels: Levels, root: MazeView, depth: nat)
    requires
        root.wf(),
        traced(levels, root),
        levels.len() == depth + 1,
        levels[horizon(root, depth)].len() > 0,
    ensures
        chosen(levels) == Some(levels[horizon(root, depth)][0]),
{
    lemma_horizon(levels, root, depth);
    lemma_deepest_below(levels, levels.len() as int);
}

/// Children join a queue without emptying it or lowering the evaluation of
/// its best node.
pub proof fn lemma_push_children_front(
    queue: Seq<MazeView>,
    node: MazeView,
    actions: Seq<Action>,
    level: int,
)
    ensures
        push_children(queue, node, actions, level).len() == queue.len() + actions.len(),
        queue.len() > 0 ==> push_children(queue, node, actions, level)[0].evaluated_score
            >= queue[0].evaluated_score,
    decreases actions.len(),
{
    if actions.len() > 0 {
        let grown = queue_push(queue, child(node, actions[0], level));
        lemma_queue_push(queue, child(node, actions[0], level));
        lemma_push_children_front(grown, node, actions.drop_first(), level);
    }
}

/// An expansion step above the horizon fills the next frontier, and leaves
/// the frontier at the horizon with a best node evaluated no lower.
pub proof fn lemma_expand_keeps(levels: Levels, t: int, root: MazeView, depth: nat)
    requires
        root.wf(),
        !root.stuck(),
        traced(levels, root),
        levels.len() == depth + 1,
        0 <= t < depth,
        can_expand(levels, t),
    ensures
        t < horizon(root, depth),
        expand(levels, t)[t + 1].len() > 0,
        expand(levels, t)[t + 1].len() >= levels[t + 1].len(),
        levels[horizon(root, depth)].len() > 0 ==> {
            &&& expand(levels, t)[horizon(root, depth)].len() > 0
            &&& expand(levels, t)[horizon(root, depth)][0].evaluated_score
                >= levels[horizon(root, depth)][0].evaluated_score
        },
{
    let d = horizon(root, depth);
    let node = levels[t][0];
    assert(reached(root, node, t));
    lemma_reached(root, node, t);
    root.lemma_stuck();
    node.lemma_stuck();
    lemma_push_children_front(levels[t + 1], node, node.legal_actions(), t);
}

/// Expansion steps at one depth never shrink the next frontier, fill it if
/// there is a node to expand, and leave the frontier at the horizon with a
/// best node evaluated no lower.
pub proof fn lemma_expand_level_keeps(
    levels: Levels,
    t: int,
    steps: nat,
    root: MazeView,
    depth: nat,
)
    requires
        root.wf(),
        !root.stuck(),
        traced(levels, root),
        levels.len() == depth + 1,
        0 <= t < depth,
    ensures
        traced(expand_level(levels, t, steps), root),
        expand_level(levels, t, steps).len() == levels.len(),
        expand_level(levels, t, steps)[t + 1].len() >= levels[t + 1].len(),
        steps >= 1 && can_expand(levels, t) ==> expand_level(levels, t, steps)[t + 1].len() > 0,
        levels[horizon(root, depth)].len() > 0 ==> {
            &&& expand_level(levels, t, steps)[horizon(root, depth)].len() > 0
            &&& expand_level(levels, t, steps)[horizon(root, depth)][0].evaluated_score
                >= levels[horizon(root, depth)][0].evaluated_score
        },
    decreases steps,
{
    if steps != 0 && can_expand(levels, t) {
        lemma_expand_traced(levels, t, root);
        lemma_expand_keeps(levels, t, root, depth);
        lemma_expand_level_keeps(expand(levels, t), t, (steps - 1) as nat, root, depth);
    }
}

/// The rest of a sweep leaves the frontier at the horizon with a best node
/// evaluated no lower, and fills that frontier if the sweep starts at or
/// above the horizon from a frontier that is not empty.
pub proof fn lemma_sweep_from_keeps(
    levels: Levels,
    t: int,
    beam_width: nat,
    root: MazeView,
    depth: nat,
)
    requires
        root.wf(),
        !root.stuck(),
        traced(levels, root),
        levels.len() == depth + 1,
        0 <= t <= depth,
        beam_width >= 1,
    ensures
        traced(sweep_from(levels, t, depth as int, beam_width), root),
        sweep_from(levels, t, depth as int, beam_width).len() == levels.len(),
        levels[horizon(root, depth)].len() > 0 ==> {
            &&& sweep_from(levels, t, depth as int, beam_width)[horizon(root, depth)].len() > 0
            &&& sweep_from(levels, t, depth as int, beam_width)[horizon(
                root,
                depth,
            )][0].evaluated_score >= levels[horizon(root, depth)][0].evaluated_score
        },
        t <= horizon(root, depth) && levels[t].len() > 0 ==> sweep_from(
            levels,
            t,
            depth as int,
            beam_width,
        )[horizon(root, depth)].len() > 0,
    decreases depth - t,
{
    lemma_horizon(levels, root, depth);
    if t < depth {
        let mid = expand_level(levels, t, beam_width);
        lemma_expand_level_keeps(levels, t, beam_width, root, depth);
        lemma_sweep_from_keeps(mid, t + 1, beam_width, root, depth);
    }
}

/// After at least one sweep the search reports the best node of the
/// frontier at the horizon; before any sweep it reports the root. Either
/// way the node it reports is evaluated no lower than the root.
pub proof fn lemma_tracked(root: MazeView, beam_width: nat, depth: nat, count: nat)
    requires
        root.wf(),
        !root.stuck(),
        beam_width >= 1,
    ensures
        traced(frontiers_after(root, beam_width, depth, count), root),
        frontiers_after(root, beam_width, depth, count).len() == depth + 1,
        0 <= horizon(root, depth) <= depth,
        count == 0 ==> chosen(frontiers_after(root, beam_width, depth, count)) == Some(seed(root)),
        count >= 1 ==> {
            &&& frontiers_after(root, beam_width, depth, count)[horizon(root, depth)].len() > 0
            &&& chosen(frontiers_after(root, beam_width, depth, count)) == Some(
                frontiers_after(root, beam_width, depth, count)[horizon(root, depth)][0],
            )
        },
        chosen(frontiers_after(root, beam_width, depth, count)) is Some,
        tracked_score(frontiers_after(root, beam_width, depth, count)) >= root.game_score,
    decreases count,
{
    let levels = frontiers_after(root, beam_width, depth, count);
    let d = horizon(root, depth);
    lemma_frontiers_traced(root, beam_width, depth, count);
    lemma_horizon(levels, root, depth);
    if count == 0 {
        lemma_deepest_below(levels, levels.len() as int);
        assert(levels[0].len() > 0);
        assert(deepest(levels) == 0);
    } else {
        let before = frontiers_after(root, beam_width, depth, (count - 1) as nat);
        lemma_tracked(root, beam_width, depth, (count - 1) as nat);
        assert(levels == sweep_from(before, 0, depth as int, beam_width));
        lemma_sweep_from_keeps(before, 0, beam_width, root, depth);
        if count == 1 {
            assert(before[0].len() > 0);
        }
        lemma_chosen_at_horizon(levels, root, depth);
        assert(reached(root, levels[d][0], d));
        lemma_reached(root, levels[d][0], d);
    }
}

/// One sweep more never lowers the evaluation of the node that the search
/// reports.
pub proof fn lemma_one_more_sweep(root: MazeView, beam_width: nat, depth: nat, count: nat)
    requires
        root.wf(),
        !root.stuck(),
        beam_width >= 1,
    ensures
        tracked_score(frontiers_after(root, beam_width, depth, count)) <= tracked_score(
            frontiers_after(root, beam_width, depth, count + 1),
        ),
{
    let before = frontiers_after(root, beam_width, depth, count);
    let after = frontiers_after(root, beam_width, depth, count + 1);
    let d = horizon(root, depth);
    lemma_tracked(root, beam_width, depth, count);
    lemma_tracked(root, beam_width, depth, count + 1);
    if count == 0 {
        assert(reached(root, after[d][0], d));
        lemma_reached(root, after[d][0], d);
    } else {
        assert(after == sweep_from(before, 0, depth as int, beam_width));
        lemma_sweep_from_keeps(before, 0, beam_width, root, depth);
    }
}

/// A search that sweeps more often never reports a node evaluated lower
/// than a search that, from the same root and with the same beam width and
/// depth limit, sweeps less often.
pub proof fn lemma_more_sweeps_never_worse(
    root: MazeView,
    beam_width: nat,
    depth: nat,
    fewer: nat,
    more: nat,
)
    requires
        root.wf(),
        !root.stuck(),
        beam_width >= 1,
        fewer <= more,
    ensures
        chosen(frontiers_after(root, beam_width, depth, fewer)) is Some,
        chosen(frontiers_after(root, beam_width, depth, more)) is Some,
        tracked_score(frontiers_after(root, beam_width, depth, fewer)) <= tracked_score(
            frontiers_after(root, beam_width, depth, more),
        ),
    decreases more - fewer,
{
    lemma_tracked(root, beam_width, depth, fewer);
    lemma_tracked(root, beam_width, depth, more);
    if fewer < more {
        lemma_more_sweeps_never_worse(root, beam_width, depth, fewer, (more - 1) as nat);
        lemma_one_more_sweep(root, beam_width, depth, (more - 1) as nat);
    }
}


/// The node in front of a queue that another has joined: the newcomer if
/// the queue was empty or its best node was evaluated lower, else the best
/// node as before.
pub proof fn lemma_queue_push_front(queue: Seq<MazeView>, node: MazeView)
    ensures
        queue_push(queue, node)[0] == if queue.len() == 0 || queue[0].evaluated_score
            < node.evaluated_score {
            node
        } else {
            queue[0]
        },
{
    lemma_rank(queue, node.evaluated_score);
    if queue.len() != 0 && queue[0].evaluated_score >= node.evaluated_score {
        assert(rank(queue, node.evaluated_score) >= 1);
    }
}

/// `actions[j]` is the one-ply choice at `root` among the first `n` of
/// `actions`: none of them leads to a higher score, and those before it
/// lead to a lower one.
spec fn leads(root: MazeView, actions: Seq<Action>, n: int, j: int) -> bool {
    &&& 0 <= j < n
    &&& forall|k: int|
        0 <= k < n ==> root.next(#[trigger] actions[k]).game_score <= root.next(
            actions[j],
        ).game_score
    &&& forall|k: int|
        0 <= k < j ==> root.next(#[trigger] actions[k]).game_score < root.next(
            actions[j],
        ).game_score
}

/// The child in front of a queue that the children of the root by its first
/// `n` legal actions have joined, one after the other, is the child by the
/// one-ply choice among those actions.
proof fn lemma_children_front(root: MazeView, actions: Seq<Action>, n: int) -> (j: int)
    requires
        0 < n <= actions.len(),
    ensures
        push_children(Seq::empty(), seed(root), actions.take(n), 0).len() == n,
        leads(root, actions, n, j),
        push_children(Seq::empty(), seed(root), actions.take(n), 0)[0] == child(
            seed(root),
            actions[j],
            0,
        ),
    decreases n,
{
    let node = seed(root);
    let last = child(node, actions[n - 1], 0);
    let queue = push_children(Seq::empty(), node, actions.take(n), 0);
    if n == 1 {
        lemma_push_children_append(Seq::empty(), node, Seq::empty(), actions[0], 0);
        assert(Seq::<Action>::empty().push(actions[0]) =~= actions.take(1));
        lemma_queue_push_front(Seq::empty(), last);
        lemma_queue_push(Seq::empty(), last);
        0
    } else {
        let before = push_children(Seq::empty(), node, actions.take(n - 1), 0);
        let j = lemma_children_front(root, actions, n - 1);
        lemma_push_children_append(Seq::empty(), node, actions.take(n - 1), actions[n - 1], 0);
        assert(actions.take(n - 1).push(actions[n - 1]) =~= actions.take(n));
        assert(queue == queue_push(before, last));
        lemma_queue_push_front(before, last);
        lemma_queue_push(before, last);
        assert(before[0].evaluated_score == root.next(actions[j]).game_score);
        assert(last.evaluated_score == root.next(actions[n - 1]).game_score);
        if before[0].evaluated_score < last.evaluated_score {
            n - 1
        } else {
            j
        }
    }
}

/// Children joining one after the other, and then one more, are the
/// children by all those actions joining one after the other.
pub proof fn lemma_push_children_append(
    queue: Seq<MazeView>,
    node: MazeView,
    actions: Seq<Action>,
    action: Action,
    level: int,
)
    ensures
        push_children(queue, node, actions.push(action), level) == queue_push(
            push_children(queue, node, actions, level),
            child(node, action, level),
        ),
    decreases actions.len(),
{
    let longer = actions.push(action);
    if actions.len() == 0 {
        assert(longer.drop_first() =~= Seq::<Action>::empty());
        assert(longer[0] == action);
        let grown = queue_push(queue, child(node, action, level));
        assert(push_children(grown, node, longer.drop_first(), level) == grown);
    } else {
        assert(longer.drop_first() =~= actions.drop_first().push(action));
        assert(longer[0] == actions[0]);
        lemma_push_children_append(
            queue_push(queue, child(node, actions[0], level)),
            node,
            actions.drop_first(),
            action,
            level,
        );
    }
}

/// A search of depth one recommends the one-ply choice, however wide its
/// beam and however often it sweeps.
pub proof fn lemma_depth_one_is_one_ply(root: MazeView, beam_width: nat, count: nat)
    requires
        root.wf(),
        !root.stuck(),
        beam_width >= 1,
    ensures
        search_after(root, beam_width, 1, count) == greedy(root),
{
    let levels = frontiers_after(root, beam_width, 1, count);
    lemma_tracked(root, beam_width, 1, count);
    if count >= 1 && horizon(root, 1) == 1 {
        lemma_depth_one_frontiers(root, beam_width, count);
        let actions = root.legal_actions();
        root.lemma_legal_actions();
        assert(actions.take(actions.len() as int) =~= actions);
        let j = lemma_children_front(root, actions, actions.len() as int);
        let best = actions[j];
        assert(actions.contains(best));
        assert forall|other: Action| #[trigger] root.legal(other) implies root.next(
            other,
        ).game_score <= root.next(best).game_score by {
            assert(actions.contains(other));
            let k = choose|k: int| 0 <= k < actions.len() && actions[k] == other;
            assert(root.next(actions[k]).game_score <= root.next(best).game_score);
        }
        assert forall|other: Action| #[trigger] root.legal(other) && other < best implies root.next(
            other,
        ).game_score < root.next(best).game_score by {
            assert(actions.contains(other));
            let k = choose|k: int| 0 <= k < actions.len() && actions[k] == other;
            if k >= j {
                assert(actions[j] <= actions[k]);
            }
            assert(root.next(actions[k]).game_score < root.next(best).game_score);
        }
        lemma_greedy_unique(root, best);
    } else if count >= 1 {
        let d = horizon(root, 1);
        assert(reached(root, levels[d][0], d));
        lemma_reached(root, levels[d][0], d);
    }
}

/// After at least one sweep at depth one from a root whose game is not
/// over, the frontier below the root holds the children of the root, pushed
/// in the order of their actions, and the root has left.
proof fn lemma_depth_one_frontiers(root: MazeView, beam_width: nat, count: nat)
    requires
        root.wf(),
        !root.is_done(),
        beam_width >= 1,
        count >= 1,
    ensures
        frontiers_after(root, beam_width, 1, count).len() == 2,
        frontiers_after(root, beam_width, 1, count)[0].len() == 0,
        frontiers_after(root, beam_width, 1, count)[1] == push_children(
            Seq::empty(),
            seed(root),
            root.legal_actions(),
            0,
        ),
    decreases count,
{
    let before = frontiers_after(root, beam_width, 1, (count - 1) as nat);
    let after = frontiers_after(root, beam_width, 1, count);
    lemma_frontiers_traced(root, beam_width, 1, (count - 1) as nat);
    assert(after == sweep_from(before, 0, 1, beam_width));
    assert(sweep_from(before, 0, 1, beam_width) == sweep_from(
        expand_level(before, 0, beam_width),
        1,
        1,
        beam_width,
    ));
    if count == 1 {
        assert(before[0] =~= seq![seed(root)]);
        assert(before[1] =~= Seq::<MazeView>::empty());
        assert(can_expand(before, 0));
        let popped = expand(before, 0);
        assert(popped[0] =~= Seq::<MazeView>::empty());
        assert(seed(root).legal_actions() == root.legal_actions()) by {
            lemma_seed_actions(root, ACTION_COUNT as nat);
        }
        assert(expand_level(popped, 0, (beam_width - 1) as nat) == popped);
    } else {
        lemma_depth_one_frontiers(root, beam_width, (count - 1) as nat);
        assert(expand_level(before, 0, beam_width) == before);
    }
}

/// The seed can take the actions that the root can.
proof fn lemma_seed_actions(root: MazeView, n: nat)
    ensures
        seed(root).legal_below(n) == root.legal_below(n),
    decreases n,
{
    if n > 0 {
        lemma_seed_actions(root, (n - 1) as nat);
    }
}

} // verus!
