//! A frontier of search nodes: a priority queue that gives out the node
//! evaluated highest, and among equals the one that came first.

use vstd::prelude::*;
use vstd::seq_lib::{group_to_multiset_ensures, to_multiset_len};
use crate::maze::MazeState;
use crate::model::MazeView;

verus! {

/// How many nodes at the front of `queue` are evaluated at `score` or more.
pub open spec fn rank(queue: Seq<MazeView>, score: int) -> nat
    decreases queue.len(),
{
    if queue.len() == 0 || queue[0].evaluated_score < score {
        0
    } else {
        1 + rank(queue.drop_first(), score)
    }
}

/// The queue after `node` has joined it: behind every node evaluated at
/// least as high, before every node evaluated lower.
pub open spec fn queue_push(queue: Seq<MazeView>, node: MazeView) -> Seq<MazeView> {
    queue.insert(rank(queue, node.evaluated_score) as int, node)
}

/// No node of the queue is evaluated higher than a node before it.
pub open spec fn queue_sorted(queue: Seq<MazeView>) -> bool {
    forall|i: int, j: int|
        0 <= i < j < queue.len() ==> (#[trigger] queue[i]).evaluated_score >= (
        #[trigger] queue[j]).evaluated_score
}

/// The nodes counted by `rank` are evaluated at `score` or more, and the
/// node behind them, if there is one, is evaluated lower.
pub proof fn lemma_rank(queue: Seq<MazeView>, score: int)
    ensures
        rank(queue, score) <= queue.len(),
        forall|i: int| 0 <= i < rank(queue, score) ==> (#[trigger] queue[i]).evaluated_score >= score,
        rank(queue, score) < queue.len() ==> queue[rank(queue, score) as int].evaluated_score < score,
    decreases queue.len(),
{
    if queue.len() != 0 && queue[0].evaluated_score >= score {
        let rest = queue.drop_first();
        lemma_rank(rest, score);
        assert forall|i: int| 0 <= i < rank(queue, score) implies (
        #[trigger] queue[i]).evaluated_score >= score by {
            if i > 0 {
                assert(queue[i] == rest[i - 1]);
            }
        }
        if rank(queue, score) < queue.len() {
            assert(queue[rank(queue, score) as int] == rest[rank(rest, score) as int]);
        }
    }
}

/// Where every node of the queue is evaluated at `score` or more, all of
/// them are counted: a node evaluated at `score` joins at the end.
pub proof fn lemma_rank_all(queue: Seq<MazeView>, score: int)
    requires
        forall|i: int| 0 <= i < queue.len() ==> (#[trigger] queue[i]).evaluated_score >= score,
    ensures
        rank(queue, score) == queue.len(),
    decreases queue.len(),
{
    if queue.len() > 0 {
        let rest = queue.drop_first();
        assert forall|i: int| 0 <= i < rest.len() implies (#[trigger] rest[i]).evaluated_score
            >= score by {
            assert(rest[i] == queue[i + 1]);
        }
        lemma_rank_all(rest, score);
    }
}

/// A node joins a queue without disturbing the order of the others, and a
/// sorted queue stays sorted.
pub proof fn lemma_queue_push(queue: Seq<MazeView>, node: MazeView)
    ensures
        queue_push(queue, node).len() == queue.len() + 1,
        queue_sorted(queue) ==> queue_sorted(queue_push(queue, node)),
        queue.len() > 0 ==> queue_push(queue, node)[0].evaluated_score >= queue[0].evaluated_score,
        queue_push(queue, node)[0].evaluated_score >= node.evaluated_score,
{
    let score = node.evaluated_score;
    let pos = rank(queue, score) as int;
    let after = queue_push(queue, node);
    lemma_rank(queue, score);
    if queue_sorted(queue) {
        assert forall|i: int, j: int| 0 <= i < j < after.len() implies (
        #[trigger] after[i]).evaluated_score >= (#[trigger] after[j]).evaluated_score by {
            if j < pos {
                assert(after[i] == queue[i] && after[j] == queue[j]);
            } else if j == pos {
                assert(after[i] == queue[i]);
            } else if i < pos {
                assert(after[i] == queue[i] && after[j] == queue[j - 1]);
            } else if i == pos {
                assert(after[j] == queue[j - 1]);
                assert(queue[pos].evaluated_score >= queue[j - 1].evaluated_score || pos == j - 1);
            } else {
                assert(after[i] == queue[i - 1] && after[j] == queue[j - 1]);
            }
        }
    }
    if pos > 0 {
        assert(after[0] == queue[0]);
    }
}

/// A node waiting in a frontier, with the number of the push that brought it.
#[derive(Clone, Copy, Debug)]
struct Entry<const H: usize, const W: usize, const END_TURN: usize> {
    node: MazeState<H, W, END_TURN>,
    stamp: u128,
}

impl<const H: usize, const W: usize, const END_TURN: usize> Entry<H, W, END_TURN> {
    /// `self` leaves the frontier before `other`: it is evaluated higher,
    /// or as high and was pushed earlier.
    spec fn beats(self, other: Self) -> bool {
        self.node@.evaluated_score > other.node@.evaluated_score || (self.node@.evaluated_score
            == other.node@.evaluated_score && self.stamp < other.stamp)
    }

    fn wins(&self, other: &Self) -> (wins: bool)
        ensures
            wins == self.beats(*other),
    {
        let mine: i64 = self.node.evaluated_score();
        let theirs: i64 = other.node.evaluated_score();
        mine > theirs || (mine == theirs && self.stamp < other.stamp)
    }
}

/// The index of the parent of slot `i` of a binary heap.
spec fn parent(i: int) -> int {
    (i - 1) / 2
}

/// A max-ordered frontier of search nodes: the node that leaves first is the
/// one with the highest evaluation, and among nodes evaluated alike the one
/// that was pushed first.
///
/// The nodes are kept in a binary heap. The model `self@` lists them in the
/// order in which they would leave.
pub struct Frontier<const H: usize, const W: usize, const END_TURN: usize> {
    items: Vec<Entry<H, W, END_TURN>>,
    next_stamp: u128,
    order: Ghost<Seq<Entry<H, W, END_TURN>>>,
}

impl<const H: usize, const W: usize, const END_TURN: usize> View for Frontier<H, W, END_TURN> {
    type V = Seq<MazeView>;

    closed spec fn view(&self) -> Seq<MazeView> {
        self.order@.map_values(|e: Entry<H, W, END_TURN>| e.node@)
    }
}

/// Every slot but the root holds an entry that does not beat its parent's.
spec fn heap_ok<const H: usize, const W: usize, const END_TURN: usize>(
    items: Seq<Entry<H, W, END_TURN>>,
) -> bool {
    forall|i: int| 0 < i < items.len() ==> !(#[trigger] items[i]).beats(items[parent(i)])
}

/// As `heap_ok`, but nothing is said of slot `k` against its parent; instead
/// the children of `k` do not beat the parent of `k`.
spec fn heap_ok_but_above<const H: usize, const W: usize, const END_TURN: usize>(
    items: Seq<Entry<H, W, END_TURN>>,
    k: int,
) -> bool {
    &&& forall|i: int|
        0 < i < items.len() && i != k ==> !(#[trigger] items[i]).beats(items[parent(i)])
    &&& forall|i: int|
        0 < i < items.len() && parent(i) == k && k > 0 ==> !(#[trigger] items[i]).beats(
            items[parent(k)],
        )
}

/// As `heap_ok`, but nothing is said of the children of slot `k` against
/// `k`; instead they do not beat the parent of `k`.
spec fn heap_ok_but_below<const H: usize, const W: usize, const END_TURN: usize>(
    items: Seq<Entry<H, W, END_TURN>>,
    k: int,
) -> bool {
    &&& forall|i: int|
        0 < i < items.len() && parent(i) != k ==> !(#[trigger] items[i]).beats(items[parent(i)])
    &&& forall|i: int|
        0 < i < items.len() && parent(i) == k && k > 0 ==> !(#[trigger] items[i]).beats(
            items[parent(k)],
        )
}

/// Entries in the order in which they leave: each beats all behind it.
spec fn strictly_sorted<const H: usize, const W: usize, const END_TURN: usize>(
    order: Seq<Entry<H, W, END_TURN>>,
) -> bool {
    forall|i: int, j: int|
        0 <= i < j < order.len() ==> (#[trigger] order[i]).beats(#[trigger] order[j])
}

/// Exchanging two entries of a sequence leaves its multiset as it was.
proof fn lemma_swap_multiset<A>(s: Seq<A>, i: int, j: int)
    requires
        0 <= i < s.len(),
        0 <= j < s.len(),
    ensures
        s.update(i, s[j]).update(j, s[i]).to_multiset() == s.to_multiset(),
{
    broadcast use group_to_multiset_ensures;

    let mid = s.update(i, s[j]);
    assert(mid.to_multiset() == s.to_multiset().insert(s[j]).remove(s[i]));
    assert(mid.update(j, s[i]).to_multiset() == mid.to_multiset().insert(s[i]).remove(mid[j]));
    assert(s.to_multiset().count(s[i]) > 0);
    assert(s.to_multiset().count(s[j]) > 0);
    assert(mid.update(j, s[i]).to_multiset() =~= s.to_multiset());
}

/// In a heap no entry beats the root's.
proof fn lemma_root_unbeaten<const H: usize, const W: usize, const END_TURN: usize>(
    items: Seq<Entry<H, W, END_TURN>>,
    i: int,
)
    requires
        heap_ok(items),
        0 <= i < items.len(),
    ensures
        !items[i].beats(items[0]),
    decreases i,
{
    if i > 0 {
        lemma_root_unbeaten(items, parent(i));
        assert(!items[i].beats(items[parent(i)]));
    }
}

fn swap_entries<const H: usize, const W: usize, const END_TURN: usize>(
    items: &mut Vec<Entry<H, W, END_TURN>>,
    i: usize,
    j: usize,
)
    requires
        i < old(items).len(),
        j < old(items).len(),
    ensures
        final(items)@ == old(items)@.update(i as int, old(items)@[j as int]).update(
            j as int,
            old(items)@[i as int],
        ),
        final(items)@.to_multiset() == old(items)@.to_multiset(),
{
    let a: Entry<H, W, END_TURN> = items[i];
    let b: Entry<H, W, END_TURN> = items[j];
    items[i] = b;
    items[j] = a;
    proof {
        lemma_swap_multiset(old(items)@, i as int, j as int);
    }
}

/// Moves the entry of slot `start` towards the root until its parent is
/// not beaten by it.
fn sift_up<const H: usize, const W: usize, const END_TURN: usize>(
    items: &mut Vec<Entry<H, W, END_TURN>>,
    start: usize,
)
    requires
        start < old(items).len(),
        heap_ok_but_above(old(items)@, start as int),
    ensures
        heap_ok(final(items)@),
        final(items)@.to_multiset() == old(items)@.to_multiset(),
        final(items)@.len() == old(items)@.len(),
{
    let mut k: usize = start;
    while k > 0
        invariant
            k < items.len(),
            items@.len() == old(items)@.len(),
            heap_ok_but_above(items@, k as int),
            items@.to_multiset() == old(items)@.to_multiset(),
        ensures
            heap_ok(items@),
            items@.len() == old(items)@.len(),
            items@.to_multiset() == old(items)@.to_multiset(),
        decreases k,
    {
        let p: usize = (k - 1) / 2;
        if !items[k].wins(&items[p]) {
            break;
        }
        let ghost before = items@;
        swap_entries(items, k, p);
        proof {
            assert forall|i: int| 0 < i < items@.len() && i != p implies !(
            #[trigger] items@[i]).beats(items@[parent(i)]) by {
                if i == k {
                } else if parent(i) == k {
                    assert(!before[i].beats(before[parent(k as int)]));
                } else if parent(i) == p {
                    assert(!before[i].beats(before[p as int]));
                } else {
                    assert(!before[i].beats(before[parent(i)]));
                }
            }
            assert forall|i: int| 0 < i < items@.len() && parent(i) == p && p > 0 implies !(
            #[trigger] items@[i]).beats(items@[parent(p as int)]) by {
                assert(!before[p as int].beats(before[parent(p as int)]));
                if i != k {
                    assert(!before[i].beats(before[p as int]));
                }
            }
        }
        k = p;
    }
}

/// Moves the entry of slot `start` away from the root until none of its
/// children beats it.
fn sift_down<const H: usize, const W: usize, const END_TURN: usize>(
    items: &mut Vec<Entry<H, W, END_TURN>>,
    start: usize,
)
    requires
        start < old(items).len(),
        heap_ok_but_below(old(items)@, start as int),
    ensures
        heap_ok(final(items)@),
        final(items)@.to_multiset() == old(items)@.to_multiset(),
        final(items)@.len() == old(items)@.len(),
{
    let len: usize = items.len();
    let mut k: usize = start;
    while k < len / 2
        invariant
            k < len,
            len == items@.len(),
            items@.len() == old(items)@.len(),
            heap_ok_but_below(items@, k as int),
            items@.to_multiset() == old(items)@.to_multiset(),
        ensures
            heap_ok(items@),
            items@.len() == old(items)@.len(),
            items@.to_multiset() == old(items)@.to_multiset(),
        decreases len - k,
    {
        let left: usize = 2 * k + 1;
        let right: usize = left + 1;
        let child: usize = if right < len && items[right].wins(&items[left]) {
            right
        } else {
            left
        };
        if !items[child].wins(&items[k]) {
            proof {
                assert forall|i: int| 0 < i < items@.len() implies !(#[trigger] items@[i]).beats(
                    items@[parent(i)],
                ) by {
                    if parent(i) == k {
                        assert(i == left || i == right);
                    }
                }
            }
            break;
        }
        let ghost before = items@;
        swap_entries(items, k, child);
        proof {
            assert forall|i: int| 0 < i < items@.len() && parent(i) != child implies !(
            #[trigger] items@[i]).beats(items@[parent(i)]) by {
                if i == k {
                    assert(!before[child as int].beats(before[parent(k as int)]));
                } else if i == child {
                } else if parent(i) == k {
                    assert(i == left || i == right);
                } else {
                    assert(!before[i].beats(before[parent(i)]));
                }
            }
            assert forall|i: int|
                0 < i < items@.len() && parent(i) == child && child > 0 implies !(
            #[trigger] items@[i]).beats(items@[parent(child as int)]) by {
                assert(!before[i].beats(before[child as int]));
            }
        }
        k = child;
    }
}

impl<const H: usize, const W: usize, const END_TURN: usize> Frontier<H, W, END_TURN> {
    /// The heap is in order, and the ghost order lists exactly its entries,
    /// each pushed before any push yet to come.
    pub closed spec fn wf(&self) -> bool {
        &&& heap_ok(self.items@)
        &&& strictly_sorted(self.order@)
        &&& self.order@.to_multiset() == self.items@.to_multiset()
        &&& forall|i: int|
            0 <= i < self.order@.len() ==> (#[trigger] self.order@[i]).stamp < self.next_stamp
    }

    /// The nodes of a well-formed frontier stand in the order of their
    /// evaluations, highest first.
    pub proof fn lemma_sorted(&self)
        requires
            self.wf(),
        ensures
            queue_sorted(self@),
    {
        assert forall|i: int, j: int| 0 <= i < j < self@.len() implies (
        #[trigger] self@[i]).evaluated_score >= (#[trigger] self@[j]).evaluated_score by {
            assert(self.order@[i].beats(self.order@[j]));
        }
    }

    /// An empty frontier.
    pub fn new() -> (frontier: Self)
        ensures
            frontier.wf(),
            frontier@ == Seq::<MazeView>::empty(),
    {
        let frontier = Frontier { items: Vec::new(), next_stamp: 0, order: Ghost(Seq::empty()) };
        assert(frontier@ =~= Seq::<MazeView>::empty());
        frontier
    }

    /// The number of nodes waiting.
    pub fn len(&self) -> (len: usize)
        requires
            self.wf(),
        ensures
            len == self@.len(),
    {
        proof {
            self.lemma_same_len();
        }
        self.items.len()
    }

    /// Whether no node is waiting.
    pub fn is_empty(&self) -> (empty: bool)
        requires
            self.wf(),
        ensures
            empty == (self@.len() == 0),
    {
        proof {
            self.lemma_same_len();
        }
        self.items.len() == 0
    }

    /// Adds a node. It will leave behind every node evaluated at least as
    /// high as it, and before every node evaluated lower.
    pub fn push(&mut self, node: MazeState<H, W, END_TURN>)
        requires
            old(self).wf(),
        ensures
            final(self).wf(),
            final(self)@ == queue_push(old(self)@, node@),
    {
        if self.next_stamp == u128::MAX {
            self.renumber();
        }
        self.push_stamped(node);
    }

    /// Gives the waiting nodes the stamps from 0 on, in the order in which
    /// they would leave, so that the stamps to come are greater than theirs
    /// again. The order of the frontier stays as it is.
    fn renumber(&mut self)
        requires
            old(self).wf(),
        ensures
            final(self).wf(),
            final(self)@ == old(self)@,
            final(self).next_stamp <= usize::MAX,
    {
        let ghost queue = self@;
        proof {
            self.lemma_sorted();
        }
        let mut drained: Vec<MazeState<H, W, END_TURN>> = Vec::new();
        while !self.is_empty()
            invariant
                self.wf(),
                drained@.len() <= queue.len(),
                self@ == queue.skip(drained@.len() as int),
                forall|j: int| 0 <= j < drained@.len() ==> (#[trigger] drained@[j])@ == queue[j],
            decreases self@.len(),
        {
            let ghost k = drained@.len() as int;
            let node = self.pop();
            drained.push(node);
            assert(queue.skip(k).drop_first() =~= queue.skip(k + 1));
        }
        proof {
            self.lemma_same_len();
        }
        self.next_stamp = 0;
        let mut i: usize = 0;
        while i < drained.len()
            invariant
                i <= drained@.len(),
                drained@.len() == queue.len(),
                queue_sorted(queue),
                self.wf(),
                self.next_stamp == i,
                self@ == queue.take(i as int),
                forall|j: int| 0 <= j < drained@.len() ==> (#[trigger] drained@[j])@ == queue[j],
            decreases drained@.len() - i,
        {
            proof {
                lemma_rank_all(queue.take(i as int), queue[i as int].evaluated_score);
                assert(queue.take(i as int).push(queue[i as int]) =~= queue.take(i + 1));
            }
            self.push_stamped(drained[i]);
            i += 1;
        }
        assert(queue.take(queue.len() as int) =~= queue);
    }

    /// Adds a node under the next stamp.
    fn push_stamped(&mut self, node: MazeState<H, W, END_TURN>)
        requires
            old(self).wf(),
            old(self).next_stamp < u128::MAX,
        ensures
            final(self).wf(),
            final(self)@ == queue_push(old(self)@, node@),
            final(self).next_stamp == old(self).next_stamp + 1,
    {
        let entry = Entry { node, stamp: self.next_stamp };
        let ghost queue = self@;
        let ghost order = self.order@;
        let ghost pos = rank(queue, node@.evaluated_score) as int;
        proof {
            broadcast use group_to_multiset_ensures;

            lemma_rank(queue, node@.evaluated_score);
        }
        self.next_stamp = self.next_stamp + 1;
        self.items.push(entry);
        let last: usize = self.items.len() - 1;
        sift_up(&mut self.items, last);
        self.order = Ghost(order.insert(pos, entry));
        proof {
            broadcast use group_to_multiset_ensures;

            let after = order.insert(pos, entry);
            assert forall|i: int, j: int| 0 <= i < j < after.len() implies (
            #[trigger] after[i]).beats(#[trigger] after[j]) by {
                if j < pos {
                    assert(after[i] == order[i] && after[j] == order[j]);
                } else if j == pos {
                    assert(after[i] == order[i]);
                    assert(queue[i] == order[i].node@);
                } else if i < pos {
                    assert(after[i] == order[i] && after[j] == order[j - 1]);
                } else if i == pos {
                    assert(after[j] == order[j - 1]);
                    assert(queue[pos] == order[pos].node@);
                    assert(order[pos].beats(order[j - 1]) || pos == j - 1);
                } else {
                    assert(after[i] == order[i - 1] && after[j] == order[j - 1]);
                }
            }
            assert forall|i: int| 0 <= i < after.len() implies (#[trigger] after[i]).stamp
                < self.next_stamp by {
                if i < pos {
                    assert(after[i] == order[i]);
                } else if i > pos {
                    assert(after[i] == order[i - 1]);
                }
            }
            assert(self@ =~= queue_push(queue, node@));
        }
    }

    /// The node that would leave next.
    pub fn peek(&self) -> (best: &MazeState<H, W, END_TURN>)
        requires
            self.wf(),
            self@.len() > 0,
        ensures
            best@ == self@[0],
    {
        proof {
            self.lemma_root_first();
        }
        &self.items[0].node
    }

    /// Removes the node evaluated highest, the one pushed first among
    /// several such, and returns it.
    pub fn pop(&mut self) -> (best: MazeState<H, W, END_TURN>)
        requires
            old(self).wf(),
            old(self)@.len() > 0,
        ensures
            final(self).wf(),
            best@ == old(self)@[0],
            final(self)@ == old(self)@.drop_first(),
    {
        proof {
            broadcast use group_to_multiset_ensures;

            self.lemma_root_first();
        }
        let ghost order = self.order@;
        let ghost before = self.items@;
        let top: Entry<H, W, END_TURN> = self.items[0];
        let filler: Entry<H, W, END_TURN> = self.items.pop().unwrap();
        if self.items.len() > 0 {
            self.items[0] = filler;
            proof {
                let cut = before.drop_last();
                assert(cut =~= before.remove(before.len() - 1));
                assert(self.items@ == cut.update(0, filler));
                assert(self.items@.to_multiset() =~= before.to_multiset().remove(top));
                assert forall|i: int|
                    0 < i < self.items@.len() && parent(i) != 0 implies !(
                #[trigger] self.items@[i]).beats(self.items@[parent(i)]) by {
                    assert(!before[i].beats(before[parent(i)]));
                }
            }
            sift_down(&mut self.items, 0);
        } else {
            proof {
                assert(self.items@ =~= before.remove(0));
            }
        }
        self.order = Ghost(order.drop_first());
        proof {
            assert(order.drop_first() =~= order.remove(0));
            assert(self@ =~= old(self)@.drop_first());
            assert forall|i: int, j: int| 0 <= i < j < self.order@.len() implies (
            #[trigger] self.order@[i]).beats(#[trigger] self.order@[j]) by {
                assert(order[i + 1].beats(order[j + 1]));
            }
            assert forall|i: int| 0 <= i < self.order@.len() implies (
            #[trigger] self.order@[i]).stamp < self.next_stamp by {
                assert(self.order@[i] == order[i + 1]);
            }
        }
        top.node
    }

    /// The heap holds as many entries as the order lists.
    proof fn lemma_same_len(&self)
        requires
            self.wf(),
        ensures
            self.items@.len() == self.order@.len(),
            self@.len() == self.order@.len(),
    {
        to_multiset_len(self.items@);
        to_multiset_len(self.order@);
    }

    /// The root of the heap is the first entry of the order.
    proof fn lemma_root_first(&self)
        requires
            self.wf(),
            self@.len() > 0,
        ensures
            self.items@.len() == self.order@.len(),
            self.items@[0] == self.order@[0],
            self.items@[0].node@ == self@[0],
    {
        broadcast use group_to_multiset_ensures;

        let items = self.items@;
        let order = self.order@;
        self.lemma_same_len();
        assert(items.to_multiset().count(items[0]) > 0);
        assert(order.contains(items[0]));
        let j = choose|j: int| 0 <= j < order.len() && order[j] == items[0];
        assert(order.to_multiset().count(order[0]) > 0);
        assert(items.contains(order[0]));
        let i = choose|i: int| 0 <= i < items.len() && items[i] == order[0];
        lemma_root_unbeaten(items, i);
        if j > 0 {
            assert(order[0].beats(order[j]));
        }
    }
}

} // verus!
