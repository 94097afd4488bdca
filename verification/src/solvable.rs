use vstd::prelude::*;

use crate::board::Puzzle;
use crate::errors::PuzzleError;
use crate::goal::arrange_order;
use crate::inversion::{count_inversions, inversions};
use crate::pos::Pos;
use crate::spiral::{goal_cell_at, goal_cell_of, lemma_goal_roundtrip};

verus! {

/// All cells of the board in row-major order, the value of each relabelled
/// by the 1-based row-major position of its goal cell.  Under this
/// relabelling the goal board reads 1, 2, …, n².
pub open spec fn relabelled_cells(p: Puzzle) -> Seq<usize> {
    let n = p.size as int;
    Seq::new((n * n) as nat, |i: int| arrange_order(n, p.cell(i % n, i / n), false))
}

/// The taxicab distance between the board's blank and the goal's blank.
pub open spec fn blank_distance(p: Puzzle) -> int {
    let n = p.size as int;
    let (gx, gy) = goal_cell_of(n, 0);
    crate::heuristic::abs_diff_int(p.blank_pos.x as int, gx) + crate::heuristic::abs_diff_int(
        p.blank_pos.y as int,
        gy,
    )
}

/// The parity criterion: the board can reach the goal exactly when the
/// permutation parity of its relabelled cells agrees with the parity of the
/// blank's taxicab displacement — that is, when their sum is even.
pub open spec fn solvable_spec(p: Puzzle) -> bool {
    (inversions(relabelled_cells(p)) + blank_distance(p)) % 2 == 0
}

/// An ascending sequence has no inverted pair from column `j` on against a
/// fixed smaller element at `i`.
proof fn lemma_inv_inner_ascending(s: Seq<usize>, i: int, j: int)
    requires
        forall|a: int, b: int| 0 <= a < b < s.len() ==> s[a] < s[b],
        0 <= i < j,
    ensures
        crate::inversion::inv_inner(s, i, j) == 0,
    decreases s.len() - j,
{
    if j < s.len() {
        assert(s[i] < s[j]);
        lemma_inv_inner_ascending(s, i, j + 1);
    }
}

/// An ascending sequence has no inversions at all.
proof fn lemma_inv_outer_ascending(s: Seq<usize>, i: int)
    requires
        forall|a: int, b: int| 0 <= a < b < s.len() ==> s[a] < s[b],
        0 <= i,
    ensures
        crate::inversion::inv_outer(s, i) == 0,
    decreases s.len() - i,
{
    if i < s.len() {
        lemma_inv_inner_ascending(s, i, i + 1);
        lemma_inv_outer_ascending(s, i + 1);
    }
}

/// The parity criterion accepts the goal arrangement itself: under the goal
/// relabelling its cells read 1, 2, …, n² with no inversion, and its blank
/// is exactly the goal blank.  So a board flagged unsolvable is never the
/// goal.
pub proof fn lemma_goal_board_solvable(p: Puzzle)
    requires
        p.wf(),
        p.grid() == crate::spiral::goal_grid(p.size as int),
    ensures
        solvable_spec(p),
{
    let n = p.size as int;
    let s = relabelled_cells(p);
    assert(n * n <= 65025) by (nonlinear_arith)
        requires
            1 <= n <= 255,
    ;
    assert forall|i: int| 0 <= i < n * n implies #[trigger] s[i] == (i + 1) as usize by {
        let x = i % n;
        let y = i / n;
        assert(0 <= x < n && 0 <= y < n && i == y * n + x) by (nonlinear_arith)
            requires
                1 <= n,
                0 <= i < n * n,
                x == i % n,
                y == i / n,
        ;
        assert(crate::spiral::goal_grid(n)[y] == Seq::new(
            n as nat,
            |x0: int| crate::spiral::goal_value(n, x0, y),
        ));
        let v = p.cell(x, y);
        assert(v == crate::spiral::goal_value(n, x, y));
        lemma_goal_roundtrip(n, x, y);
        assert(goal_cell_of(n, v) == (x, y));
        assert(arrange_order(n, v, false) == (y * n + x + 1) as usize);
    }
    assert forall|a: int, b: int| 0 <= a < b < s.len() implies s[a] < s[b] by {
        assert(s[a] == (a + 1) as usize && s[b] == (b + 1) as usize);
    }
    lemma_inv_outer_ascending(s, 0);
    // The blank cell of the goal grid is the goal blank, so its taxicab
    // displacement is zero.
    let bx = p.blank_pos.x as int;
    let by = p.blank_pos.y as int;
    assert(crate::spiral::goal_grid(n)[by] == Seq::new(
        n as nat,
        |x0: int| crate::spiral::goal_value(n, x0, by),
    ));
    assert(crate::spiral::goal_value(n, bx, by) == 0);
    lemma_goal_roundtrip(n, bx, by);
    assert(goal_cell_of(n, 0) == (bx, by));
    assert(blank_distance(p) == 0);
}

impl Puzzle {
    /// Decide whether the goal is reachable from this board.  The number of
    /// transpositions that sorts the relabelled cells has the parity of their
    /// inversion count; adding the blank displacement and testing evenness
    /// gives the classical reachability criterion.
    pub fn is_solvable(&self) -> (r: Result<bool, PuzzleError>)
        requires
            self.wf(),
        ensures
            r == Ok::<bool, PuzzleError>(solvable_spec(*self)),
    {
        let n = self.get_size();
        proof {
            assert(n * n <= 65025) by (nonlinear_arith)
                requires
                    n <= 255,
            ;
        }
        let nn = n * n;
        let mut flat: Vec<usize> = Vec::new();
        let mut i: usize = 0;
        while i < nn
            invariant
                self.wf(),
                n == self.size,
                nn == n * n,
                nn <= 65025,
                i <= nn,
                flat@.len() == i,
                forall|k: int| 0 <= k < i ==> flat@[k] == relabelled_cells(*self)[k],
            decreases nn - i,
        {
            let x = i % n;
            let y = i / n;
            proof {
                assert((i as int) / (n as int) < (n as int)) by (nonlinear_arith)
                    requires
                        0 < n,
                        (i as int) < n as int * n as int,
                ;
            }
            let v = match self.get(Pos::new(x, y)) {
                Ok(v) => v,
                Err(_) => 0,
            };
            let g = goal_cell_at(n, v);
            proof {
                assert(g.y as int * n as int + g.x as int + 1 <= n * n) by (nonlinear_arith)
                    requires
                        0 <= (g.x as int) && (g.x as int) < n,
                        0 <= (g.y as int) && (g.y as int) < n,
                ;
            }
            flat.push(g.y * n + g.x + 1);
            i += 1;
        }
        proof {
            assert(flat@ =~= relabelled_cells(*self));
        }
        let count = count_inversions(&flat);
        let goal_blank = goal_cell_at(n, 0);
        let blank = self.get_blank_pos();
        let dx = if blank.x >= goal_blank.x {
            blank.x - goal_blank.x
        } else {
            goal_blank.x - blank.x
        };
        let dy = if blank.y >= goal_blank.y {
            blank.y - goal_blank.y
        } else {
            goal_blank.y - blank.y
        };
        Ok((count + dx + dy) % 2 == 0)
    }
}

} // verus!
