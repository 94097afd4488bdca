use vstd::prelude::*;

use crate::board::Puzzle;
use crate::goal::arrange_order;
use crate::pos::Pos;
use crate::spiral::{goal_cell_at, goal_cell_of};

verus! {

/// The column-major 1-based position that the goal cell of value `v`
/// occupies: the relabelling used for the vertical inversion count.
pub open spec fn column_order(n: int, v: usize) -> usize {
    let (gx, gy) = goal_cell_of(n, v);
    (gx * n + gy + 1) as usize
}

/// The non-blank tiles in row-major order, each relabelled by the row-major
/// 1-based position of its goal cell; first `i` cells of the walk.
pub open spec fn flat_rows_upto(p: Puzzle, i: int) -> Seq<usize>
    decreases i,
{
    if i <= 0 {
        Seq::empty()
    } else {
        let n = p.size as int;
        let x = (i - 1) % n;
        let y = (i - 1) / n;
        let v = p.cell(x, y);
        flat_rows_upto(p, i - 1) + (if v == 0 {
            Seq::empty()
        } else {
            seq![arrange_order(n, v, false)]
        })
    }
}

/// The non-blank tiles in column-major order, each relabelled by the
/// column-major 1-based position of its goal cell; first `i` cells.
pub open spec fn flat_cols_upto(p: Puzzle, i: int) -> Seq<usize>
    decreases i,
{
    if i <= 0 {
        Seq::empty()
    } else {
        let n = p.size as int;
        let x = (i - 1) / n;
        let y = (i - 1) % n;
        let v = p.cell(x, y);
        flat_cols_upto(p, i - 1) + (if v == 0 {
            Seq::empty()
        } else {
            seq![column_order(n, v)]
        })
    }
}

pub open spec fn inv_pair(s: Seq<usize>, i: int, j: int) -> int {
    if s[i] > s[j] {
        1
    } else {
        0
    }
}

pub open spec fn inv_inner(s: Seq<usize>, i: int, j: int) -> int
    decreases s.len() - j,
{
    if j >= s.len() {
        0
    } else {
        inv_pair(s, i, j) + inv_inner(s, i, j + 1)
    }
}

pub open spec fn inv_outer(s: Seq<usize>, i: int) -> int
    decreases s.len() - i,
{
    if i >= s.len() {
        0
    } else {
        inv_inner(s, i, i + 1) + inv_outer(s, i + 1)
    }
}

/// The number of inverted pairs of the sequence.
pub open spec fn inversions(s: Seq<usize>) -> int {
    inv_outer(s, 0)
}

/// Repeated floor division against descending odd denominators: the move
/// lower bound derived from an inversion count.
pub open spec fn move_lower_limit(inv: int, m: int) -> int
    decreases m,
{
    if m <= 0 {
        0
    } else {
        inv / m + if m < 2 {
            0
        } else {
            move_lower_limit(inv % m, m - 2)
        }
    }
}

/// The Inversion Distance heuristic: the horizontal and vertical move lower
/// bounds added together.
pub open spec fn inversion_distance_spec(p: Puzzle) -> int {
    let n = p.size as int;
    move_lower_limit(inversions(flat_rows_upto(p, n * n)), n - 1) + move_lower_limit(
        inversions(flat_cols_upto(p, n * n)),
        n - 1,
    )
}

proof fn lemma_inv_inner_bound(s: Seq<usize>, i: int, j: int)
    requires
        0 <= j,
    ensures
        0 <= inv_inner(s, i, j),
        inv_inner(s, i, j) <= (if j <= s.len() {
            s.len() - j
        } else {
            0
        }),
    decreases s.len() - j,
{
    if j < s.len() {
        lemma_inv_inner_bound(s, i, j + 1);
    }
}

proof fn lemma_inv_outer_bound(s: Seq<usize>, i: int)
    requires
        0 <= i,
    ensures
        0 <= inv_outer(s, i),
        i <= s.len() ==> inv_outer(s, i) * 2 <= (s.len() - i) * (s.len() as int - i - 1),
        i > s.len() ==> inv_outer(s, i) == 0,
    decreases s.len() - i,
{
    if i < s.len() {
        lemma_inv_inner_bound(s, i, i + 1);
        lemma_inv_outer_bound(s, i + 1);
        let l = s.len() as int;
        assert(inv_inner(s, i, i + 1) <= l - i - 1);
        assert(inv_outer(s, i + 1) * 2 <= (l - i - 1) * (l - i - 2));
        assert(inv_outer(s, i) == inv_inner(s, i, i + 1) + inv_outer(s, i + 1));
        assert((l - i - 1) * (l - i - 2) + 2 * (l - i - 1) == (l - i) * (l - i - 1))
            by (nonlinear_arith);
        assert(inv_outer(s, i) * 2 <= (l - i) * (l - i - 1));
    } else if i == s.len() {
        assert((s.len() - i) * (s.len() as int - i - 1) == 0) by (nonlinear_arith)
            requires
                i == s.len() as int,
        ;
    }
}

/// An inversion count never exceeds the number of pairs.
pub proof fn lemma_inversions_bound(s: Seq<usize>)
    ensures
        0 <= inversions(s),
        inversions(s) * 2 <= s.len() * (s.len() as int - 1),
{
    lemma_inv_outer_bound(s, 0);
}

/// The non-blank tiles of the board in row-major order, relabelled by the
/// row-major position of their goal cells.
pub fn puzzle_to_vec_lr_tb(puzzle: &Puzzle) -> (r: Vec<usize>)
    requires
        puzzle.wf(),
    ensures
        r@ == flat_rows_upto(*puzzle, puzzle.size as int * puzzle.size as int),
        r@.len() <= 65025,
{
    let n = puzzle.get_size();
    proof {
        assert(n * n <= 65025) by (nonlinear_arith)
            requires
                n <= 255,
        ;
    }
    let nn = n * n;
    let mut flat: Vec<usize> = Vec::new();
    let mut i: usize = 0;
    while i < nn
        invariant
            puzzle.wf(),
            n == puzzle.size,
            nn == n * n,
            nn <= 65025,
            i <= nn,
            flat@.len() <= i,
            flat@ == flat_rows_upto(*puzzle, i as int),
        decreases nn - i,
    {
        let x = i % n;
        let y = i / n;
        proof {
            assert((i as int) / (n as int) < (n as int)) by (nonlinear_arith)
                requires
                    0 < n,
                    (i as int) < n as int * n as int,
            ;
        }
        let v = match puzzle.get(Pos::new(x, y)) {
            Ok(v) => v,
            Err(_) => 0,
        };
        if v != 0 {
            let g = goal_cell_at(n, v);
            proof {
                assert(g.y as int * n as int + g.x as int + 1 <= n * n) by (nonlinear_arith)
                    requires
                        0 <= (g.x as int) && (g.x as int) < n,
                        0 <= (g.y as int) && (g.y as int) < n,
                ;
            }
            flat.push(g.y * n + g.x + 1);
        }
        proof {
            assert(flat@ =~= flat_rows_upto(*puzzle, i as int + 1));
        }
        i += 1;
    }
    flat
}

/// The non-blank tiles of the board in column-major order, relabelled by the
/// column-major position of their goal cells.
pub fn puzzle_to_vec_tb_lr(puzzle: &Puzzle) -> (r: Vec<usize>)
    requires
        puzzle.wf(),
    ensures
        r@ == flat_cols_upto(*puzzle, puzzle.size as int * puzzle.size as int),
        r@.len() <= 65025,
{
    let n = puzzle.get_size();
    proof {
        assert(n * n <= 65025) by (nonlinear_arith)
            requires
                n <= 255,
        ;
    }
    let nn = n * n;
    let mut flat: Vec<usize> = Vec::new();
    let mut i: usize = 0;
    while i < nn
        invariant
            puzzle.wf(),
            n == puzzle.size,
            nn == n * n,
            nn <= 65025,
            i <= nn,
            flat@.len() <= i,
            flat@ == flat_cols_upto(*puzzle, i as int),
        decreases nn - i,
    {
        let x = i / n;
        let y = i % n;
        proof {
            assert((i as int) / (n as int) < (n as int)) by (nonlinear_arith)
                requires
                    0 < n,
                    (i as int) < n as int * n as int,
            ;
        }
        let v = match puzzle.get(Pos::new(x, y)) {
            Ok(v) => v,
            Err(_) => 0,
        };
        if v != 0 {
            let g = goal_cell_at(n, v);
            proof {
                assert(g.x as int * n as int + g.y as int + 1 <= n * n) by (nonlinear_arith)
                    requires
                        0 <= (g.x as int) && (g.x as int) < n,
                        0 <= (g.y as int) && (g.y as int) < n,
                ;
            }
            flat.push(g.x * n + g.y + 1);
        }
        proof {
            assert(flat@ =~= flat_cols_upto(*puzzle, i as int + 1));
        }
        i += 1;
    }
    flat
}

/// Count the inverted pairs of a sequence.
pub fn count_inversions(flat_state: &Vec<usize>) -> (r: usize)
    requires
        flat_state@.len() <= 65025,
    ensures
        r == inversions(flat_state@),
        r <= 2114092800,
{
    let len = flat_state.len();
    let mut count: usize = 0;
    let mut i: usize = 0;
    proof {
        lemma_inversions_bound(flat_state@);
        assert(inversions(flat_state@) * 2 <= 4228185600) by (nonlinear_arith)
            requires
                inversions(flat_state@) * 2 <= flat_state@.len() * (flat_state@.len() as int - 1),
                flat_state@.len() <= 65025,
                0 <= inversions(flat_state@),
        ;
    }
    while i < len
        invariant
            len == flat_state@.len(),
            len <= 65025,
            i <= len,
            inversions(flat_state@) <= 2114092800,
            count + inv_outer(flat_state@, i as int) == inversions(flat_state@),
            count <= inversions(flat_state@),
        decreases len - i,
    {
        proof {
            lemma_inv_outer_bound(flat_state@, i as int + 1);
            lemma_inv_inner_bound(flat_state@, i as int, i as int + 1);
        }
        let mut j: usize = i + 1;
        while j < len
            invariant
                len == flat_state@.len(),
                len <= 65025,
                i < j <= len,
                inversions(flat_state@) <= 2114092800,
                count + inv_inner(flat_state@, i as int, j as int) + inv_outer(
                    flat_state@,
                    i as int + 1,
                ) == inversions(flat_state@),
                count <= inversions(flat_state@),
            decreases len - j,
        {
            proof {
                lemma_inv_inner_bound(flat_state@, i as int, j as int + 1);
                lemma_inv_outer_bound(flat_state@, i as int + 1);
            }
            if flat_state[i] > flat_state[j] {
                count += 1;
            }
            j += 1;
        }
        i += 1;
    }
    count
}

/// The repeated floor division of an inversion count against descending odd
/// denominators, starting at `size - 1`.
pub fn calculate_move_lower_limit(inversions_count: usize, size: usize) -> (r: usize)
    requires
        1 <= size,
    ensures
        r == move_lower_limit(inversions_count as int, size as int - 1),
        r <= inversions_count,
{
    let mut modulo: usize = size - 1;
    let mut inv = inversions_count;
    let mut count: usize = 0;
    proof {
        lemma_mll_le(inversions_count as int, size as int - 1);
    }
    while modulo > 0
        invariant
            count + inv <= inversions_count,
            count + move_lower_limit(inv as int, modulo as int) == move_lower_limit(
                inversions_count as int,
                size as int - 1,
            ),
            move_lower_limit(inv as int, modulo as int) <= inv,
        decreases modulo,
    {
        proof {
            lemma_mll_le(inv as int % modulo as int, modulo as int - 2);
            assert(inv as int / modulo as int + inv as int % modulo as int <= inv as int)
                by (nonlinear_arith)
                requires
                    1 <= modulo as int,
                    0 <= inv as int,
            ;
        }
        count = count + inv / modulo;
        inv = inv % modulo;
        if modulo < 2 {
            modulo = 0;
        } else {
            modulo -= 2;
        }
    }
    count
}

/// The move lower bound never exceeds the inversion count itself.
proof fn lemma_mll_le(inv: int, m: int)
    requires
        0 <= inv,
    ensures
        0 <= move_lower_limit(inv, m) <= inv,
    decreases m,
{
    if m >= 2 {
        lemma_mll_le(inv % m, m - 2);
        assert(inv / m + inv % m <= inv && 0 <= inv / m) by (nonlinear_arith)
            requires
                1 <= m,
                0 <= inv,
        ;
    } else if m == 1 {
        assert(inv / 1 == inv);
    }
}

/// The Inversion Distance heuristic.
pub fn inversion_distance(puzzle: &Puzzle) -> (r: usize)
    requires
        puzzle.wf(),
    ensures
        r == inversion_distance_spec(*puzzle),
        r <= 4228185600,
{
    let size = puzzle.get_size();
    let flat_state = puzzle_to_vec_lr_tb(puzzle);
    let inv = count_inversions(&flat_state);
    let vertical = calculate_move_lower_limit(inv, size);
    let flat_state = puzzle_to_vec_tb_lr(puzzle);
    let inv = count_inversions(&flat_state);
    let horizontal = calculate_move_lower_limit(inv, size);
    vertical + horizontal
}

} // verus!
