use vstd::prelude::*;

use crate::board::Puzzle;
use crate::pos::Pos;

verus! {

/// The mathematical identity of a board: everything its equality compares.
pub open spec fn board_key(p: Puzzle) -> (int, Seq<Seq<usize>>, Pos) {
    (p.size as int, p.grid(), p.blank_pos)
}

/// The set of boards already expanded, held as a duplicate-free vector.
pub struct ClosedSet {
    set: Vec<Puzzle>,
}

impl ClosedSet {
    /// The identities of the boards in the set.
    pub closed spec fn contents(self) -> Set<(int, Seq<Seq<usize>>, Pos)> {
        Set::new(
            |k: (int, Seq<Seq<usize>>, Pos)|
                exists|i: int| 0 <= i < self.set@.len() && board_key(#[trigger] self.set@[i]) == k,
        )
    }

    /// How many distinct boards have been recorded.
    pub closed spec fn spec_len(self) -> nat {
        self.set@.len()
    }

    pub fn new() -> (r: ClosedSet)
        ensures
            r.contents() == Set::<(int, Seq<Seq<usize>>, Pos)>::empty(),
            r.spec_len() == 0,
    {
        let r = ClosedSet { set: Vec::new() };
        proof {
            assert(r.contents() =~= Set::<(int, Seq<Seq<usize>>, Pos)>::empty());
        }
        r
    }

    pub fn len(&self) -> (r: usize)
        ensures
            r == self.spec_len(),
    {
        self.set.len()
    }

    /// Whether the board has been recorded already.
    pub fn contains(&self, state: &Puzzle) -> (r: bool)
        ensures
            r == self.contents().contains(board_key(*state)),
    {
        let mut i: usize = 0;
        while i < self.set.len()
            invariant
                i <= self.set@.len(),
                forall|j: int| 0 <= j < i ==> board_key(#[trigger] self.set@[j]) != board_key(
                    *state,
                ),
            decreases self.set@.len() - i,
        {
            if &self.set[i] == state {
                proof {
                    assert(board_key(self.set@[i as int]) == board_key(*state));
                }
                return true;
            }
            i += 1;
        }
        proof {
            if self.contents().contains(board_key(*state)) {
                let j = choose|j: int|
                    0 <= j < self.set@.len() && board_key(#[trigger] self.set@[j]) == board_key(
                        *state,
                    );
                assert(false);
            }
        }
        false
    }

    /// Record a board; recording a board twice leaves the set unchanged.
    pub fn insert(&mut self, state: Puzzle)
        ensures
            final(self).contents() == old(self).contents().insert(board_key(state)),
            old(self).contents().contains(board_key(state)) ==> final(self).spec_len() == old(
                self,
            ).spec_len(),
            !old(self).contents().contains(board_key(state)) ==> final(self).spec_len() == old(
                self,
            ).spec_len() + 1,
    {
        if self.contains(&state) {
            proof {
                assert(self.contents() =~= old(self).contents().insert(board_key(state)));
            }
            return ;
        }
        self.set.push(state);
        proof {
            assert forall|k: (int, Seq<Seq<usize>>, Pos)|
                self.contents().contains(k) implies old(self).contents().insert(
                board_key(state),
            ).contains(k) by {
                let i = choose|i: int|
                    0 <= i < self.set@.len() && board_key(#[trigger] self.set@[i]) == k;
                if i < old(self).set@.len() {
                    assert(old(self).contents().contains(k));
                }
            }
            assert forall|k: (int, Seq<Seq<usize>>, Pos)|
                old(self).contents().insert(board_key(state)).contains(k) implies self.contents().contains(k) by {
                if k == board_key(state) {
                    assert(board_key(self.set@[self.set@.len() - 1]) == k);
                } else {
                    let i = choose|i: int|
                        0 <= i < old(self).set@.len() && board_key(#[trigger] old(self).set@[i])
                            == k;
                    assert(board_key(self.set@[i]) == k);
                }
            }
            assert(self.contents() =~= old(self).contents().insert(board_key(state)));
        }
    }
}

} // verus!
