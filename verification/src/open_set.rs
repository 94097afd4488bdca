use vstd::multiset::Multiset;
use vstd::prelude::*;

use crate::board::{Puzzle, MAX_SIZE};
use crate::heuristic::{heuristic_spec, Heuristic};
use crate::moves::Move;
use crate::spiral::goal_grid;

verus! {

broadcast use vstd::seq_lib::group_to_multiset_ensures;

/// Addition clamped at `usize::MAX`; exact whenever the sum fits.
pub open spec fn sat_add(a: int, b: int) -> int {
    if a + b <= usize::MAX {
        a + b
    } else {
        usize::MAX as int
    }
}

/// A frontier entry: a board, the move path that produced it from the start,
/// its depth and its heuristic estimate.
pub struct OpenSetNode {
    state: Puzzle,
    path: Vec<Move>,
    moved_cost: usize,
    heuristics_cost: usize,
}

impl OpenSetNode {
    /// The board the node stands for.
    pub closed spec fn spec_state(self) -> Puzzle {
        self.state
    }

    /// The move path recorded from the start board.
    pub closed spec fn spec_path(self) -> Seq<Move> {
        self.path@
    }

    pub closed spec fn spec_moved_cost(self) -> usize {
        self.moved_cost
    }

    pub closed spec fn spec_heuristics_cost(self) -> usize {
        self.heuristics_cost
    }

    /// The f-cost the frontier orders by.
    pub open spec fn spec_total_cost(self) -> int {
        sat_add(self.spec_moved_cost() as int, self.spec_heuristics_cost() as int)
    }

    /// Build a node: the heuristic estimate is computed on the spot from the
    /// chosen heuristic.
    pub fn new(state: Puzzle, path: Vec<Move>, moved_cost: usize, heuristic: Heuristic) -> (r:
        OpenSetNode)
        requires
            state.wf(),
            heuristic != Heuristic::NotSet,
        ensures
            r.spec_state() == state,
            r.spec_path() == path@,
            r.spec_moved_cost() == moved_cost,
            r.spec_heuristics_cost() == heuristic_spec(heuristic, state),
    {
        let heuristics_cost = heuristic.evaluate(&state);
        OpenSetNode { state, path, moved_cost, heuristics_cost }
    }

    pub fn moved_cost(&self) -> (r: usize)
        ensures
            r == self.spec_moved_cost(),
    {
        self.moved_cost
    }

    pub fn heuristics_cost(&self) -> (r: usize)
        ensures
            r == self.spec_heuristics_cost(),
    {
        self.heuristics_cost
    }

    /// The f-cost: depth plus estimate, clamped at `usize::MAX`.
    pub fn total_cost(&self) -> (r: usize)
        ensures
            r == self.spec_total_cost(),
    {
        if self.moved_cost <= usize::MAX - self.heuristics_cost {
            self.moved_cost + self.heuristics_cost
        } else {
            usize::MAX
        }
    }

    /// Whether the node's board is the goal.
    pub fn is_goal(&self) -> (r: bool)
        requires
            1 <= self.spec_state().size <= MAX_SIZE,
        ensures
            r == (self.spec_state().grid() == goal_grid(self.spec_state().size as int)),
    {
        self.state.is_final_state()
    }

    pub fn state(&self) -> (r: &Puzzle)
        ensures
            *r == self.spec_state(),
    {
        &self.state
    }

    /// Give up the node for its board.
    pub fn to_state(self) -> (r: Puzzle)
        ensures
            r == self.spec_state(),
    {
        self.state
    }

    pub fn path(&self) -> (r: &Vec<Move>)
        ensures
            r@ == self.spec_path(),
    {
        &self.path
    }
}

/// The frontier: a multiset of search nodes with extract-min by f-cost,
/// plus the total number of inserts ever made and the peak membership.
pub struct OpenSet {
    set: Vec<OpenSetNode>,
    max_size: usize,
    count: usize,
    pushes: Ghost<nat>,
}

impl OpenSet {
    /// The nodes currently in the frontier.
    pub closed spec fn contents(self) -> Multiset<OpenSetNode> {
        self.set@.to_multiset()
    }

    /// The number of inserts ever made, as an unbounded count.
    pub closed spec fn spec_pushes(self) -> nat {
        self.pushes@
    }

    /// The exec counter equals the push count wherever the latter fits in
    /// `usize`; a frontier that ever counted that far keeps the cap.
    pub closed spec fn counters_ok(self) -> bool {
        self.count == if self.spec_pushes() <= usize::MAX as nat {
            self.spec_pushes() as int
        } else {
            usize::MAX as int
        }
    }

    pub closed spec fn spec_len(self) -> nat {
        self.set@.len()
    }

    pub closed spec fn spec_max_size(self) -> usize {
        self.max_size
    }

    pub fn new() -> (r: OpenSet)
        ensures
            r.contents() == Multiset::<OpenSetNode>::empty(),
            r.spec_pushes() == 0,
            r.counters_ok(),
            r.spec_len() == 0,
            r.spec_max_size() == 0,
    {
        let r = OpenSet { set: Vec::new(), max_size: 0, count: 0, pushes: Ghost(0) };
        proof {
            assert(r.set@.to_multiset() =~= Multiset::<OpenSetNode>::empty());
        }
        r
    }

    /// Total number of nodes ever inserted (clamped at `usize::MAX`).
    pub fn get_append_count(&self) -> (r: usize)
        requires
            self.counters_ok(),
        ensures
            r as nat == (if self.spec_pushes() <= usize::MAX as nat {
                self.spec_pushes()
            } else {
                usize::MAX as nat
            }),
    {
        self.count
    }

    /// The largest membership the frontier has seen.
    pub fn get_max_size(&self) -> (r: usize)
        ensures
            r == self.spec_max_size(),
    {
        self.max_size
    }

    /// An empty frontier holds no node at all.
    pub proof fn lemma_no_nodes(self)
        requires
            self.spec_len() == 0,
        ensures
            forall|nd: OpenSetNode| !self.contents().contains(nd),
    {
        assert(self.set@ =~= Seq::<OpenSetNode>::empty());
        assert forall|nd: OpenSetNode| !self.contents().contains(nd) by {
            if self.contents().contains(nd) {
                assert(self.set@.contains(nd));
            }
        }
    }

    /// A one-node frontier is exactly the multiset of its node.
    pub proof fn lemma_singleton(self)
        requires
            self.spec_len() == 1,
        ensures
            forall|nd: OpenSetNode| #[trigger]
                self.contents().contains(nd) ==> self.contents() == Multiset::<
                    OpenSetNode,
                >::empty().insert(nd),
    {
        let first = self.set@[0];
        assert(self.set@ =~= Seq::<OpenSetNode>::empty().push(first));
        assert(Seq::<OpenSetNode>::empty().to_multiset() =~= Multiset::<OpenSetNode>::empty());
        assert(self.contents() =~= Multiset::<OpenSetNode>::empty().insert(first));
        assert forall|nd: OpenSetNode| #[trigger]
            self.contents().contains(nd) implies self.contents() == Multiset::<
            OpenSetNode,
        >::empty().insert(nd) by {
            if nd != first {
                assert(self.contents().count(nd) == Multiset::<OpenSetNode>::empty().count(nd));
            }
        }
    }

    /// A non-empty frontier holds some node.
    pub proof fn lemma_some_node(self)
        requires
            self.spec_len() >= 1,
        ensures
            exists|nd: OpenSetNode| self.contents().contains(nd),
    {
        assert(self.set@.contains(self.set@[0]));
        assert(self.contents().contains(self.set@[0]));
    }

    /// The current membership.
    pub fn len(&self) -> (r: usize)
        ensures
            r == self.spec_len(),
    {
        self.set.len()
    }

    /// Add a node; the insert counter grows by one and the peak is updated.
    pub fn insert(&mut self, node: OpenSetNode)
        requires
            old(self).counters_ok(),
        ensures
            final(self).contents() == old(self).contents().insert(node),
            final(self).spec_pushes() == old(self).spec_pushes() + 1,
            final(self).counters_ok(),
            final(self).spec_len() == old(self).spec_len() + 1,
            final(self).spec_max_size() as int == (if old(self).spec_len() + 1 > old(
                self,
            ).spec_max_size() {
                old(self).spec_len() as int + 1
            } else {
                old(self).spec_max_size() as int
            }),
    {
        self.set.push(node);
        proof {
            self.pushes@ = self.pushes@ + 1;
            assert(self.set@.to_multiset() =~= old(self).set@.to_multiset().insert(node));
        }
        if self.count < usize::MAX {
            self.count = self.count + 1;
        }
        if self.set.len() > self.max_size {
            self.max_size = self.set.len();
        }
    }

    /// Remove and return a node of minimal f-cost; `None` on an empty
    /// frontier.  Ties are broken by position, which is stable for a given
    /// insertion history.
    pub fn pop(&mut self) -> (r: Option<OpenSetNode>)
        requires
            old(self).counters_ok(),
        ensures
            final(self).spec_pushes() == old(self).spec_pushes(),
            final(self).counters_ok(),
            final(self).spec_max_size() == old(self).spec_max_size(),
            match r {
                None => {
                    &&& old(self).spec_len() == 0
                    &&& final(self).contents() == old(self).contents()
                    &&& final(self).spec_len() == 0
                },
                Some(node) => {
                    &&& old(self).contents().contains(node)
                    &&& final(self).contents() == old(self).contents().remove(node)
                    &&& final(self).spec_len() + 1 == old(self).spec_len()
                    &&& forall|m: OpenSetNode|
                        old(self).contents().contains(m) ==> node.spec_total_cost()
                            <= m.spec_total_cost()
                },
            },
    {
        if self.set.len() == 0 {
            return None;
        }
        let mut best: usize = 0;
        let mut best_cost = self.set[0].total_cost();
        let mut i: usize = 1;
        while i < self.set.len()
            invariant
                1 <= self.set@.len(),
                best < i,
                i <= self.set@.len(),
                best_cost == self.set@[best as int].spec_total_cost(),
                forall|j: int|
                    0 <= j < i ==> best_cost <= (#[trigger] self.set@[j]).spec_total_cost(),
            decreases self.set@.len() - i,
        {
            let c = self.set[i].total_cost();
            if c < best_cost {
                best = i;
                best_cost = c;
            }
            i += 1;
        }
        let node = self.set.remove(best);
        proof {
            assert(old(self).set@.remove(best as int).to_multiset() =~= old(
                self,
            ).set@.to_multiset().remove(node));
            assert forall|m: OpenSetNode| old(self).contents().contains(m) implies node
                .spec_total_cost() <= m.spec_total_cost() by {
                assert(old(self).set@.contains(m));
                let idx = choose|idx: int|
                    0 <= idx < old(self).set@.len() && old(self).set@[idx] == m;
                assert(best_cost <= old(self).set@[idx].spec_total_cost());
            }
        }
        Some(node)
    }
}

} // verus!
