//! The model of a search: the frontiers of every depth as sequences, what
//! an expansion step and a sweep make of them, which node a search reports,
//! and how every node is traced back to the root.

use vstd::prelude::*;
use crate::frontier::{lemma_rank, queue_push, rank};
use crate::model::{Action, MazeView};
use crate::policy::greedy;

verus! {

/// The frontiers of a search, by depth; each lists its nodes in the order in
/// which they would leave it.
pub type Levels = Seq<Seq<MazeView>>;

/// The node that stands for the root: evaluated, and without a first action.
pub open spec fn seed(root: MazeView) -> MazeView {
    root.evaluated().tagged(None)
}

/// The node reached from `node`, which waits at depth `level`, by `action`.
/// It is evaluated; a child of the root is tagged with the action that made
/// it, and a deeper node inherits the tag.
pub open spec fn child(node: MazeView, action: Action, level: int) -> MazeView {
    let reached = node.next(action).evaluated();
    if level == 0 {
        reached.tagged(Some(action))
    } else {
        reached
    }
}

/// `queue` after the children of `node` by `actions` have joined it, in the
/// order of `actions`.
pub open spec fn push_children(
    queue: Seq<MazeView>,
    node: MazeView,
    actions: Seq<Action>,
    level: int,
) -> Seq<MazeView>
    decreases actions.len(),
{
    if actions.len() == 0 {
        queue
    } else {
        push_children(
            queue_push(queue, child(node, actions[0], level)),
            node,
            actions.drop_first(),
            level,
        )
    }
}

/// The frontiers at the start of a search to depth `depth`: the seed alone,
/// at depth 0.
pub open spec fn start(root: MazeView, depth: nat) -> Levels {
    Seq::new(
        depth + 1,
        |t: int|
            if t == 0 {
                seq![seed(root)]
            } else {
                Seq::empty()
            },
    )
}

/// The frontier at depth `t` has a node to expand: it is not empty, and the
/// game of its best node is not over.
pub open spec fn can_expand(levels: Levels, t: int) -> bool {
    levels[t].len() > 0 && !levels[t][0].is_done()
}

/// One expansion step at depth `t`: the best node leaves its frontier and
/// its children by every legal action join the next.
pub open spec fn expand(levels: Levels, t: int) -> Levels {
    let node = levels[t][0];
    levels.update(t, levels[t].drop_first()).update(
        t + 1,
        push_children(levels[t + 1], node, node.legal_actions(), t),
    )
}

/// Up to `steps` expansion steps at depth `t`, ending early when the
/// frontier there has no node to expand.
pub open spec fn expand_level(levels: Levels, t: int, steps: nat) -> Levels
    decreases steps,
{
    if steps == 0 || !can_expand(levels, t) {
        levels
    } else {
        expand_level(expand(levels, t), t, (steps - 1) as nat)
    }
}

/// The rest of a sweep: the depths from `t` to `last - 1`, in ascending
/// order, each expanded by up to `beam_width` steps.
pub open spec fn sweep_from(levels: Levels, t: int, last: int, beam_width: nat) -> Levels
    decreases last - t,
{
    if t >= last {
        levels
    } else {
        sweep_from(expand_level(levels, t, beam_width), t + 1, last, beam_width)
    }
}

/// One sweep: every depth but the last, from the root down, expanded by up
/// to `beam_width` steps.
pub open spec fn sweep(levels: Levels, beam_width: nat) -> Levels {
    sweep_from(levels, 0, levels.len() - 1, beam_width)
}

/// `count` sweeps, one after the other.
pub open spec fn sweeps(levels: Levels, beam_width: nat, count: nat) -> Levels
    decreases count,
{
    if count == 0 {
        levels
    } else {
        sweep(sweeps(levels, beam_width, (count - 1) as nat), beam_width)
    }
}

/// The greatest depth below `bound` whose frontier is not empty, or -1.
pub open spec fn deepest_below(levels: Levels, bound: int) -> int
    decreases bound,
{
    if bound <= 0 {
        -1
    } else if levels[bound - 1].len() > 0 {
        bound - 1
    } else {
        deepest_below(levels, bound - 1)
    }
}

/// The greatest depth whose frontier is not empty, or -1.
pub open spec fn deepest(levels: Levels) -> int {
    deepest_below(levels, levels.len() as int)
}

/// The node a search reports: the best node of the deepest frontier that is
/// not empty.
pub open spec fn chosen(levels: Levels) -> Option<MazeView> {
    if deepest(levels) < 0 {
        None
    } else {
        Some(levels[deepest(levels)][0])
    }
}

/// The first-action tag of the chosen node.
pub open spec fn chosen_tag(levels: Levels) -> Option<Action> {
    match chosen(levels) {
        Some(node) => node.first_action,
        None => None,
    }
}

/// The frontiers of a search from `root` to depth `depth` after `count`
/// sweeps of width `beam_width`.
pub open spec fn frontiers_after(root: MazeView, beam_width: nat, depth: nat, count: nat) -> Levels {
    sweeps(start(root, depth), beam_width, count)
}

/// The action a search from `root` recommends after `count` sweeps: the tag
/// of the chosen node, or the one-ply choice at the root where that node
/// has no tag.
pub open spec fn search_after(root: MazeView, beam_width: nat, depth: nat, count: nat) -> Action {
    match chosen_tag(frontiers_after(root, beam_width, depth, count)) {
        Some(action) => action,
        None => greedy(root),
    }
}

/// The node reached from the root by the actions of `path`, in turn.
pub open spec fn node_at(root: MazeView, path: Seq<Action>) -> MazeView
    decreases path.len(),
{
    if path.len() == 0 {
        seed(root)
    } else {
        child(node_at(root, path.drop_last()), path.last(), path.len() - 1)
    }
}

/// Every action of `path` is legal where it is taken, and is taken where
/// the game is not over.
pub open spec fn path_ok(root: MazeView, path: Seq<Action>) -> bool
    decreases path.len(),
{
    if path.len() == 0 {
        true
    } else {
        let before = node_at(root, path.drop_last());
        path_ok(root, path.drop_last()) && !before.is_done() && before.legal(path.last())
    }
}

/// `path` leads from the root to `node` in `t` actions.
pub open spec fn reached_by(root: MazeView, path: Seq<Action>, node: MazeView, t: int) -> bool {
    path.len() == t && path_ok(root, path) && node == node_at(root, path)
}

/// Some path leads from the root to `node` in `t` actions.
pub open spec fn reached(root: MazeView, node: MazeView, t: int) -> bool {
    exists|path: Seq<Action>| #[trigger] reached_by(root, path, node, t)
}

/// Every node of every frontier has been reached from the root, in as many
/// actions as its frontier is deep.
pub open spec fn traced(levels: Levels, root: MazeView) -> bool {
    forall|t: int, i: int|
        0 <= t < levels.len() && 0 <= i < levels[t].len() ==> reached(root, #[trigger] levels[t][i], t)
}

/// What holds of the node at the end of a sound path from a well-formed
/// root: it is well-formed and evaluated, as many turns have passed as the
/// path is long, its score is at least the root's, and its tag is the first
/// action of the path, which is legal at the root.
pub proof fn lemma_node_at(root: MazeView, path: Seq<Action>)
    requires
        root.wf(),
        path_ok(root, path),
    ensures
        node_at(root, path).wf(),
        node_at(root, path).turn == root.turn + path.len(),
        node_at(root, path).end_turn == root.end_turn,
        node_at(root, path).height() == root.height(),
        node_at(root, path).width() == root.width(),
        node_at(root, path).evaluated_score == node_at(root, path).game_score,
        node_at(root, path).game_score >= root.game_score,
        path.len() == 0 ==> node_at(root, path).first_action is None,
        path.len() > 0 ==> node_at(root, path).first_action == Some(path[0]) && root.legal(path[0]),
    decreases path.len(),
{
    if path.len() > 0 {
        let front = path.drop_last();
        lemma_node_at(root, front);
        let before = node_at(root, front);
        before.lemma_next_wf(path.last());
        before.lemma_next_board_ok(path.last());
        if front.len() > 0 {
            assert(front[0] == path[0]);
        }
    }
}

/// A node reached in `t` actions from a well-formed root.
pub proof fn lemma_reached(root: MazeView, node: MazeView, t: int)
    requires
        root.wf(),
        reached(root, node, t),
    ensures
        node.wf(),
        node.turn == root.turn + t,
        node.end_turn == root.end_turn,
        node.height() == root.height(),
        node.width() == root.width(),
        node.evaluated_score == node.game_score,
        node.game_score >= root.game_score,
        t >= 0,
        t == 0 ==> node == seed(root),
        t > 0 ==> node.first_action is Some && root.legal(node.first_action->0),
{
    let path = choose|path: Seq<Action>| #[trigger] reached_by(root, path, node, t);
    lemma_node_at(root, path);
}

/// The child of a reached node by a legal action is reached, one action
/// later.
pub proof fn lemma_child_reached(root: MazeView, node: MazeView, t: int, action: Action)
    requires
        reached(root, node, t),
        !node.is_done(),
        node.legal(action),
    ensures
        reached(root, child(node, action, t), t + 1),
{
    let path = choose|path: Seq<Action>| #[trigger] reached_by(root, path, node, t);
    let longer = path.push(action);
    assert(longer.drop_last() =~= path);
    assert(reached_by(root, longer, child(node, action, t), t + 1));
}

/// Every node of `queue` has been reached from the root in `t` actions.
pub open spec fn all_reached(queue: Seq<MazeView>, root: MazeView, t: int) -> bool {
    forall|i: int| 0 <= i < queue.len() ==> reached(root, #[trigger] queue[i], t)
}

/// A reached node joins a queue of reached nodes.
pub proof fn lemma_queue_push_reached(queue: Seq<MazeView>, node: MazeView, root: MazeView, t: int)
    requires
        all_reached(queue, root, t),
        reached(root, node, t),
    ensures
        all_reached(queue_push(queue, node), root, t),
        queue_push(queue, node).len() == queue.len() + 1,
{
    let pos = rank(queue, node.evaluated_score) as int;
    lemma_rank(queue, node.evaluated_score);
    let after = queue_push(queue, node);
    assert forall|i: int| 0 <= i < after.len() implies reached(root, #[trigger] after[i], t) by {
        if i < pos {
            assert(after[i] == queue[i]);
        } else if i > pos {
            assert(after[i] == queue[i - 1]);
        }
    }
}

/// The children of a reached node join a queue of nodes reached one action
/// later.
pub proof fn lemma_push_children_reached(
    queue: Seq<MazeView>,
    node: MazeView,
    actions: Seq<Action>,
    t: int,
    root: MazeView,
)
    requires
        all_reached(queue, root, t + 1),
        reached(root, node, t),
        !node.is_done(),
        forall|k: int| 0 <= k < actions.len() ==> node.legal(#[trigger] actions[k]),
    ensures
        all_reached(push_children(queue, node, actions, t), root, t + 1),
        push_children(queue, node, actions, t).len() == queue.len() + actions.len(),
    decreases actions.len(),
{
    if actions.len() > 0 {
        assert(node.legal(actions[0]));
        lemma_child_reached(root, node, t, actions[0]);
        lemma_queue_push_reached(queue, child(node, actions[0], t), root, t + 1);
        let rest = actions.drop_first();
        assert forall|k: int| 0 <= k < rest.len() implies node.legal(#[trigger] rest[k]) by {
            assert(rest[k] == actions[k + 1]);
        }
        lemma_push_children_reached(
            queue_push(queue, child(node, actions[0], t)),
            node,
            rest,
            t,
            root,
        );
    }
}

/// An expansion step keeps every node traced to the root.
pub proof fn lemma_expand_traced(levels: Levels, t: int, root: MazeView)
    requires
        traced(levels, root),
        0 <= t,
        t + 1 < levels.len(),
        can_expand(levels, t),
    ensures
        traced(expand(levels, t), root),
        expand(levels, t).len() == levels.len(),
{
    let node = levels[t][0];
    let actions = node.legal_actions();
    let after = expand(levels, t);
    node.lemma_legal_actions();
    assert forall|k: int| 0 <= k < actions.len() implies node.legal(#[trigger] actions[k]) by {
        assert(actions.contains(actions[k]));
    }
    assert(all_reached(levels[t + 1], root, t + 1)) by {
        assert forall|i: int| 0 <= i < levels[t + 1].len() implies reached(
            root,
            #[trigger] levels[t + 1][i],
            t + 1,
        ) by {}
    }
    lemma_push_children_reached(levels[t + 1], node, actions, t, root);
    assert forall|u: int, i: int| 0 <= u < after.len() && 0 <= i < after[u].len() implies reached(
        root,
        #[trigger] after[u][i],
        u,
    ) by {
        if u == t {
            assert(after[u][i] == levels[t][i + 1]);
        } else if u == t + 1 {
        } else {
            assert(after[u][i] == levels[u][i]);
        }
    }
}

/// Expansion steps at one depth keep every node traced to the root.
pub proof fn lemma_expand_level_traced(levels: Levels, t: int, steps: nat, root: MazeView)
    requires
        traced(levels, root),
        0 <= t,
        t + 1 < levels.len(),
    ensures
        traced(expand_level(levels, t, steps), root),
        expand_level(levels, t, steps).len() == levels.len(),
    decreases steps,
{
    if steps != 0 && can_expand(levels, t) {
        lemma_expand_traced(levels, t, root);
        lemma_expand_level_traced(expand(levels, t), t, (steps - 1) as nat, root);
    }
}

/// The rest of a sweep keeps every node traced to the root.
pub proof fn lemma_sweep_from_traced(levels: Levels, t: int, beam_width: nat, root: MazeView)
    requires
        traced(levels, root),
        0 <= t,
        levels.len() > 0,
    ensures
        traced(sweep_from(levels, t, levels.len() - 1, beam_width), root),
        sweep_from(levels, t, levels.len() - 1, beam_width).len() == levels.len(),
    decreases levels.len() - t,
{
    if t < levels.len() - 1 {
        lemma_expand_level_traced(levels, t, beam_width, root);
        lemma_sweep_from_traced(expand_level(levels, t, beam_width), t + 1, beam_width, root);
    }
}

/// The frontiers of a search keep every node traced to the root, and there
/// is always one frontier more than the search is deep.
pub proof fn lemma_frontiers_traced(root: MazeView, beam_width: nat, depth: nat, count: nat)
    ensures
        traced(frontiers_after(root, beam_width, depth, count), root),
        frontiers_after(root, beam_width, depth, count).len() == depth + 1,
    decreases count,
{
    if count == 0 {
        let levels = start(root, depth);
        assert forall|t: int, i: int| 0 <= t < levels.len() && 0 <= i < levels[t].len() implies reached(
            root,
            #[trigger] levels[t][i],
            t,
        ) by {
            assert(reached_by(root, Seq::<Action>::empty(), seed(root), 0));
        }
    } else {
        lemma_frontiers_traced(root, beam_width, depth, (count - 1) as nat);
        lemma_sweep_from_traced(
            frontiers_after(root, beam_width, depth, (count - 1) as nat),
            0,
            beam_width,
            root,
        );
    }
}

/// The deepest frontier that is not empty, if its depth is below `bound`.
pub proof fn lemma_deepest_below(levels: Levels, bound: int)
    requires
        0 <= bound <= levels.len(),
    ensures
        -1 <= deepest_below(levels, bound) < bound,
        deepest_below(levels, bound) >= 0 ==> levels[deepest_below(levels, bound)].len() > 0,
        forall|t: int| deepest_below(levels, bound) < t < bound ==> (#[trigger] levels[t]).len() == 0,
    decreases bound,
{
    if bound > 0 && levels[bound - 1].len() == 0 {
        lemma_deepest_below(levels, bound - 1);
    }
}

/// Where every node is traced to a well-formed root, the tag of the chosen
/// node is an action that is legal at the root, and only the seed has none.
pub proof fn lemma_chosen_tag(levels: Levels, root: MazeView)
    requires
        root.wf(),
        traced(levels, root),
    ensures
        match chosen_tag(levels) {
            Some(action) => root.legal(action) && deepest(levels) > 0,
            None => deepest(levels) <= 0,
        },
{
    lemma_deepest_below(levels, levels.len() as int);
    let d = deepest(levels);
    if d >= 0 {
        assert(reached(root, levels[d][0], d));
        lemma_reached(root, levels[d][0], d);
    }
}

} // verus!
