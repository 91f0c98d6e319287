//! The search itself: the frontiers of every depth in memory, the sweep
//! over them, and the drivers that sweep for a number of times or for a
//! length of time.

use std::time::{Duration, Instant};
use vstd::prelude::*;
use crate::complete::{exhausted, lemma_exhausted_is_idle};
use crate::frontier::Frontier;
use crate::laws::lemma_tracked;
use crate::levels::{
    can_expand, child, chosen_tag, deepest, deepest_below, expand, expand_level, frontiers_after,
    lemma_chosen_tag, lemma_expand_traced, lemma_reached, push_children, reached, reached_by,
    search_after, seed, start, sweep, sweep_from, traced, Levels,
};
use crate::maze::MazeState;
use crate::model::{Action, MazeView};
use crate::policy::{greedy, greedy_action};

verus! {

/// The frontiers of a search in progress, one for each depth from 0 to the
/// depth limit.
pub struct FrontierSet<const H: usize, const W: usize, const END_TURN: usize> {
    levels: Vec<Frontier<H, W, END_TURN>>,
    root: Ghost<MazeView>,
}

impl<const H: usize, const W: usize, const END_TURN: usize> View for FrontierSet<H, W, END_TURN> {
    type V = Levels;

    closed spec fn view(&self) -> Levels {
        Seq::new(self.levels@.len(), |t: int| self.levels@[t]@)
    }
}

impl<const H: usize, const W: usize, const END_TURN: usize> FrontierSet<H, W, END_TURN> {
    /// The state the search started from.
    pub closed spec fn root(&self) -> MazeView {
        self.root@
    }

    /// Each frontier is in order and holds only nodes reached from the
    /// well-formed root, in as many actions as the frontier is deep.
    pub closed spec fn wf(&self) -> bool {
        &&& self.levels@.len() >= 1
        &&& forall|t: int| 0 <= t < self.levels@.len() ==> (#[trigger] self.levels@[t]).wf()
        &&& self.root@.wf()
        &&& traced(self@, self.root@)
    }

    /// The frontiers at the start of a search from `root` to depth `depth`:
    /// the root alone, evaluated and without a tag, at depth 0.
    pub fn new(root: &MazeState<H, W, END_TURN>, depth: usize) -> (set: Self)
        requires
            root@.wf(),
            depth < usize::MAX,
        ensures
            set.wf(),
            set.root() == root@,
            set@ == start(root@, depth as nat),
    {
        let mut levels: Vec<Frontier<H, W, END_TURN>> = Vec::new();
        let mut first = Frontier::new();
        let mut node = *root;
        node.evaluate_score();
        node.set_first_action(None);
        first.push(node);
        assert(first@ =~= seq![seed(root@)]);
        levels.push(first);
        let mut t: usize = 0;
        while t < depth
            invariant
                t <= depth,
                depth < usize::MAX,
                levels@.len() == t + 1,
                levels@[0]@ == seq![seed(root@)],
                forall|u: int| 0 <= u < levels@.len() ==> (#[trigger] levels@[u]).wf(),
                forall|u: int| 0 < u < levels@.len() ==> (#[trigger] levels@[u])@ == Seq::<
                    MazeView,
                >::empty(),
            decreases depth - t,
        {
            levels.push(Frontier::new());
            t += 1;
        }
        let set = FrontierSet { levels, root: Ghost(root@) };
        proof {
            assert(set@ =~= start(root@, depth as nat));
            assert forall|u: int, i: int| 0 <= u < set@.len() && 0 <= i < set@[u].len() implies reached(
                root@,
                #[trigger] set@[u][i],
                u,
            ) by {
                assert(reached_by(root@, Seq::<Action>::empty(), seed(root@), 0));
            }
        }
        set
    }

    /// The depth limit of the search: the depth of the last frontier.
    pub fn depth(&self) -> (depth: usize)
        requires
            self.wf(),
        ensures
            depth == self@.len() - 1,
    {
        self.levels.len() - 1
    }

    /// The number of nodes waiting at depth `t`.
    pub fn level_len(&self, t: usize) -> (len: usize)
        requires
            self.wf(),
            t < self@.len(),
        ensures
            len == self@[t as int].len(),
    {
        self.levels[t].len()
    }

    /// The best node waiting at depth `t`, if any.
    pub fn level_best(&self, t: usize) -> (best: Option<MazeState<H, W, END_TURN>>)
        requires
            self.wf(),
            t < self@.len(),
        ensures
            match best {
                Some(node) => self@[t as int].len() > 0 && node@ == self@[t as int][0],
                None => self@[t as int].len() == 0,
            },
    {
        if self.levels[t].is_empty() {
            None
        } else {
            Some(*self.levels[t].peek())
        }
    }

    /// The first-action tag of the best node of the deepest frontier that is
    /// not empty. Only the root itself has none; any tag is an action that
    /// is legal at the root.
    pub fn best_tag(&self) -> (tag: Option<Action>)
        requires
            self.wf(),
        ensures
            tag == chosen_tag(self@),
            match tag {
                Some(action) => self.root().legal(action),
                None => deepest(self@) <= 0,
            },
    {
        proof {
            lemma_chosen_tag(self@, self.root@);
        }
        let mut bound: usize = self.levels.len();
        while bound > 0
            invariant
                bound <= self.levels@.len(),
                self@.len() == self.levels@.len(),
                self.wf(),
                deepest_below(self@, bound as int) == deepest(self@),
                match chosen_tag(self@) {
                    Some(action) => self.root().legal(action),
                    None => deepest(self@) <= 0,
                },
            decreases bound,
        {
            assert(self@[bound - 1] == self.levels@[bound - 1]@);
            if !self.levels[bound - 1].is_empty() {
                return self.levels[bound - 1].peek().first_action();
            }
            bound -= 1;
        }
        None
    }

    /// Whether the search is exhausted: no frontier has a node to expand,
    /// and a sweep would change nothing.
    pub fn is_exhausted(&self) -> (done: bool)
        requires
            self.wf(),
        ensures
            done == exhausted(self@, self.root(), (self@.len() - 1) as nat),
            done == (forall|t: int| 0 <= t < self@.len() - 1 ==> !#[trigger] can_expand(self@, t)),
    {
        let last: usize = self.levels.len() - 1;
        let mut t: usize = 0;
        proof {
            lemma_exhausted_is_idle(self@, self.root@, last as nat);
        }
        while t < last
            invariant
                t <= last,
                last == self@.len() - 1,
                self@.len() == self.levels@.len(),
                self.wf(),
                forall|u: int| 0 <= u < t ==> !#[trigger] can_expand(self@, u),
                exhausted(self@, self.root(), last as nat) <==> (forall|u: int|
                    0 <= u < last ==> !#[trigger] can_expand(self@, u)),
            decreases last - t,
        {
            assert(self@[t as int] == self.levels@[t as int]@);
            if !self.levels[t].is_empty() && !self.levels[t].peek().is_done() {
                assert(can_expand(self@, t as int));
                return false;
            }
            t += 1;
        }
        true
    }

    /// What the well-formedness of the set holds: the root is well-formed,
    /// there is a frontier for depth 0, and every node of every frontier has
    /// been reached from the root in as many actions as its frontier is
    /// deep.
    pub proof fn lemma_traced(&self)
        requires
            self.wf(),
        ensures
            self.root().wf(),
            self@.len() >= 1,
            traced(self@, self.root()),
    {
    }

    /// One expansion step at depth `t`.
    fn expand(&mut self, t: usize)
        requires
            old(self).wf(),
            t + 1 < old(self)@.len(),
            can_expand(old(self)@, t as int),
        ensures
            final(self).wf(),
            final(self).root() == old(self).root(),
            final(self)@ == expand(old(self)@, t as int),
            final(self)@.len() == old(self)@.len(),
    {
        let ghost before = self@;
        let ghost root = self.root@;
        let node = self.levels[t].pop();
        proof {
            assert(node@ == before[t as int][0]);
            assert(reached(root, before[t as int][0], t as int));
            lemma_reached(root, node@, t as int);
            node@.lemma_legal_actions();
        }
        let actions = node.legal_actions();
        let mut i: usize = 0;
        proof {
            assert(actions@.skip(0) =~= actions@);
            assert(before[t + 1] == self.levels@[t + 1]@);
        }
        while i < actions.len()
            invariant
                i <= actions.len(),
                before == old(self)@,
                before.len() == old(self).levels@.len(),
                t + 1 < usize::MAX,
                actions@ == node@.legal_actions(),
                node@.wf(),
                !node@.is_done(),
                forall|a: Action|
                    #![trigger node@.legal_actions().contains(a)]
                    #![trigger node@.legal(a)]
                    node@.legal_actions().contains(a) <==> node@.legal(a),
                t + 1 < self.levels@.len(),
                self.levels@.len() == old(self).levels@.len(),
                self.root@ == root,
                forall|u: int| 0 <= u < self.levels@.len() ==> (#[trigger] self.levels@[u]).wf(),
                forall|u: int|
                    0 <= u < self.levels@.len() && u != t && u != t + 1 ==> (
                    #[trigger] self.levels@[u]) == old(self).levels@[u],
                self.levels@[t as int]@ == before[t as int].drop_first(),
                push_children(self.levels@[t + 1]@, node@, actions@.skip(i as int), t as int)
                    == push_children(before[t + 1], node@, actions@, t as int),
            decreases actions.len() - i,
        {
            let action: Action = actions[i];
            proof {
                assert(node@.legal_actions().contains(action));
                node@.lemma_next_wf(action);
                assert(actions@.skip(i as int).drop_first() =~= actions@.skip(i + 1));
                assert(actions@.skip(i as int)[0] == action);
            }
            let mut next_state = node;
            next_state.advance(action);
            next_state.evaluate_score();
            if t == 0 {
                next_state.set_first_action(Some(action));
            }
            assert(next_state@ == child(node@, action, t as int));
            self.levels[t + 1].push(next_state);
            i += 1;
        }
        proof {
            assert(actions@.skip(i as int) =~= Seq::<Action>::empty());
            assert(self@ =~= expand(before, t as int));
            lemma_expand_traced(before, t as int, root);
        }
    }

    /// Up to `beam_width` expansion steps at depth `t`, ending early when
    /// the frontier there is empty or the game of its best node is over.
    fn expand_level(&mut self, t: usize, beam_width: usize)
        requires
            old(self).wf(),
            t + 1 < old(self)@.len(),
        ensures
            final(self).wf(),
            final(self).root() == old(self).root(),
            final(self)@ == expand_level(old(self)@, t as int, beam_width as nat),
            final(self)@.len() == old(self)@.len(),
    {
        let mut step: usize = 0;
        while step < beam_width
            invariant
                step <= beam_width,
                self.wf(),
                self.root() == old(self).root(),
                t + 1 < self@.len(),
                self@.len() == old(self)@.len(),
                self@.len() == self.levels@.len(),
                expand_level(self@, t as int, (beam_width - step) as nat) == expand_level(
                    old(self)@,
                    t as int,
                    beam_width as nat,
                ),
            ensures
                self.wf(),
                self.root() == old(self).root(),
                self@ == expand_level(old(self)@, t as int, beam_width as nat),
                self@.len() == old(self)@.len(),
            decreases beam_width - step,
        {
            assert(self@[t as int] == self.levels@[t as int]@);
            if self.levels[t].is_empty() {
                break;
            }
            if self.levels[t].peek().is_done() {
                break;
            }
            self.expand(t);
            step += 1;
        }
    }

    /// One sweep: every depth but the last, from the root down, expanded by
    /// up to `beam_width` steps.
    pub fn sweep(&mut self, beam_width: usize)
        requires
            old(self).wf(),
        ensures
            final(self).wf(),
            final(self).root() == old(self).root(),
            final(self)@ == sweep(old(self)@, beam_width as nat),
    {
        let last: usize = self.levels.len() - 1;
        let mut t: usize = 0;
        while t < last
            invariant
                t <= last,
                last == self@.len() - 1,
                self@.len() == self.levels@.len(),
                self.wf(),
                self.root() == old(self).root(),
                sweep_from(self@, t as int, last as int, beam_width as nat) == sweep(
                    old(self)@,
                    beam_width as nat,
                ),
            decreases last - t,
        {
            self.expand_level(t, beam_width);
            t += 1;
        }
    }
}

/// Why a search recommends no action.
#[derive(Clone, Copy, Debug, PartialEq, Eq, Structural)]
pub enum SearchError {
    /// The beam width or the depth limit is not positive.
    Configuration,
    /// No action is legal at the root.
    StuckState,
}

/// The error with which a search from `state` fails, if it fails: a beam
/// width or a depth limit that is not positive is a configuration error;
/// with a sound configuration, a root without a legal action is stuck.
pub open spec fn failure(state: MazeView, beam_width: int, beam_depth: int) -> Option<SearchError> {
    if beam_width <= 0 || beam_depth <= 0 {
        Some(SearchError::Configuration)
    } else if state.stuck() {
        Some(SearchError::StuckState)
    } else {
        None
    }
}

/// What a search is started with: the error that the configuration or the
/// root calls for, or the frontiers holding the root.
fn open_search<const H: usize, const W: usize, const END_TURN: usize>(
    state: &MazeState<H, W, END_TURN>,
    beam_width: i32,
    beam_depth: usize,
) -> (opened: Result<FrontierSet<H, W, END_TURN>, SearchError>)
    requires
        state@.wf(),
        beam_depth < usize::MAX,
    ensures
        match opened {
            Ok(beam) => {
                &&& failure(state@, beam_width as int, beam_depth as int) is None
                &&& beam.wf()
                &&& beam.root() == state@
                &&& beam@ == start(state@, beam_depth as nat)
            },
            Err(error) => failure(state@, beam_width as int, beam_depth as int) == Some(error),
        },
{
    if beam_width <= 0 || beam_depth == 0 {
        return Err(SearchError::Configuration);
    }
    if state.legal_actions().len() == 0 {
        return Err(SearchError::StuckState);
    }
    Ok(FrontierSet::new(state, beam_depth))
}

/// The action that the frontiers recommend: the tag of the chosen node, or
/// the one-ply choice at the root where that node is the root itself.
fn close_search<const H: usize, const W: usize, const END_TURN: usize>(
    beam: &FrontierSet<H, W, END_TURN>,
    state: &MazeState<H, W, END_TURN>,
) -> (action: Action)
    requires
        beam.wf(),
        beam.root() == state@,
        state@.wf(),
        !state@.stuck(),
    ensures
        action == match chosen_tag(beam@) {
            Some(tag) => tag,
            None => greedy(state@),
        },
        state@.legal(action),
{
    match beam.best_tag() {
        Some(tag) => tag,
        None => greedy_action(state),
    }
}

/// The action that a search from `state` recommends after exactly `sweeps`
/// sweeps, each expanding up to `beam_width` nodes at every depth below
/// `beam_depth`. With no sweep at all it is the one-ply choice.
pub fn chokudai_search_action_with_sweeps<const H: usize, const W: usize, const END_TURN: usize>(
    state: &MazeState<H, W, END_TURN>,
    beam_width: i32,
    beam_depth: usize,
    sweeps: u64,
) -> (result: Result<Action, SearchError>)
    requires
        state@.wf(),
        beam_depth < usize::MAX,
    ensures
        match result {
            Ok(action) => {
                &&& failure(state@, beam_width as int, beam_depth as int) is None
                &&& action == search_after(
                    state@,
                    beam_width as nat,
                    beam_depth as nat,
                    sweeps as nat,
                )
                &&& state@.legal(action)
                &&& sweeps == 0 ==> action == greedy(state@)
            },
            Err(error) => failure(state@, beam_width as int, beam_depth as int) == Some(error),
        },
{
    let mut beam = match open_search(state, beam_width, beam_depth) {
        Ok(beam) => beam,
        Err(error) => {
            return Err(error);
        },
    };
    let width: usize = beam_width as usize;
    let mut count: u64 = 0;
    while count < sweeps
        invariant
            count <= sweeps,
            0 < beam_width,
            width == beam_width,
            beam.wf(),
            beam.root() == state@,
            beam@ == frontiers_after(state@, beam_width as nat, beam_depth as nat, count as nat),
        decreases sweeps - count,
    {
        beam.sweep(width);
        count += 1;
    }
    proof {
        if sweeps == 0 {
            lemma_tracked(state@, beam_width as nat, beam_depth as nat, 0);
        }
    }
    Ok(close_search(&beam, state))
}

/// A moment on the monotonic clock, `std::time::Instant`, carried through as
/// it is.
#[verifier::external_type_specification]
#[verifier::external_body]
pub struct ExInstant(std::time::Instant);

/// The moment from which a search counts its time: `Instant::now`.
#[verifier::external_body]
fn clock_start() -> (start: Instant) {
    Instant::now()
}

/// The time that has passed since `start`: `Instant::elapsed`.
#[verifier::external_body]
fn clock_elapsed(start: &Instant) -> (elapsed: Duration) {
    start.elapsed()
}

/// Whether `elapsed` is `threshold` or more: `>=` of `Duration`.
#[verifier::external_body]
fn time_is_up(elapsed: &Duration, threshold: &Duration) -> (up: bool) {
    elapsed >= threshold
}

/// The action that a search from `state` recommends when it sweeps until
/// `time_threshold` has passed. The clock is read after each sweep, so at
/// least one sweep is made and none is cut short; the sweeps are counted in
/// a `u64`, and the search also ends should that count reach its maximum.
///
/// Whatever the clock says, the action is legal at `state` and is what
/// `chokudai_search_action_with_sweeps` recommends for some positive number
/// of sweeps.
pub fn chokudai_search_action_with_time_threshold<
    const H: usize,
    const W: usize,
    const END_TURN: usize,
>(
    state: &MazeState<H, W, END_TURN>,
    beam_width: i32,
    beam_depth: usize,
    time_threshold: Duration,
) -> (result: Result<Action, SearchError>)
    requires
        state@.wf(),
        beam_depth < usize::MAX,
    ensures
        match result {
            Ok(action) => {
                &&& failure(state@, beam_width as int, beam_depth as int) is None
                &&& state@.legal(action)
                &&& exists|count: nat|
                    count >= 1 && action == #[trigger] search_after(
                        state@,
                        beam_width as nat,
                        beam_depth as nat,
                        count,
                    )
            },
            Err(error) => failure(state@, beam_width as int, beam_depth as int) == Some(error),
        },
{
    let time_keeper = clock_start();
    let mut beam = match open_search(state, beam_width, beam_depth) {
        Ok(beam) => beam,
        Err(error) => {
            return Err(error);
        },
    };
    let width: usize = beam_width as usize;
    let mut count: u64 = 0;
    loop
        invariant_except_break
            count < u64::MAX,
        invariant
            0 < beam_width,
            width == beam_width,
            beam.wf(),
            beam.root() == state@,
            beam@ == frontiers_after(state@, beam_width as nat, beam_depth as nat, count as nat),
        ensures
            count >= 1,
        decreases u64::MAX - count,
    {
        beam.sweep(width);
        count += 1;
        if count == u64::MAX {
            break;
        }
        let elapsed = clock_elapsed(&time_keeper);
        if time_is_up(&elapsed, &time_threshold) {
            break;
        }
    }
    let action = close_search(&beam, state);
    assert(action == search_after(state@, beam_width as nat, beam_depth as nat, count as nat));
    Ok(action)
}

} // verus!
