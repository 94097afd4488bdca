use vstd::prelude::*;

use crate::board::MAX_SIZE;
use crate::pos::Pos;

verus! {

/// Position of cell (x, y) in the clockwise spiral walk of an n×n grid: the
/// outer ring is walked right along the top row, down the right edge, left
/// along the bottom row and up the left edge; the walk then continues on the
/// inner (n-2)×(n-2) grid.
pub open spec fn spiral_index(n: int, x: int, y: int) -> int
    decreases n,
{
    if n <= 0 {
        0
    } else if y == 0 {
        x
    } else if x == n - 1 {
        (n - 1) + y
    } else if y == n - 1 {
        2 * (n - 1) + (n - 1 - x)
    } else if x == 0 {
        3 * (n - 1) + (n - 1 - y)
    } else if n <= 2 {
        0
    } else {
        4 * (n - 1) + spiral_index(n - 2, x - 1, y - 1)
    }
}

/// The cell that stands at position `k` of the spiral walk: the inverse of
/// `spiral_index`.
pub open spec fn spiral_cell(n: int, k: int) -> (int, int)
    decreases n,
{
    if n <= 0 {
        (0, 0)
    } else if k <= n - 1 {
        (k, 0)
    } else if k <= 2 * (n - 1) {
        (n - 1, k - (n - 1))
    } else if k <= 3 * (n - 1) {
        (n - 1 - (k - 2 * (n - 1)), n - 1)
    } else if k <= 4 * (n - 1) - 1 {
        (0, n - 1 - (k - 3 * (n - 1)))
    } else if n <= 2 {
        (0, 0)
    } else {
        let (x, y) = spiral_cell(n - 2, k - 4 * (n - 1));
        (x + 1, y + 1)
    }
}

/// The spiral position of every cell lies in [0, n²).
pub proof fn lemma_spiral_index_range(n: int, x: int, y: int)
    requires
        1 <= n,
        0 <= x < n,
        0 <= y < n,
    ensures
        0 <= spiral_index(n, x, y) < n * n,
    decreases n,
{
    if y == 0 || x == n - 1 || y == n - 1 || x == 0 {
        assert(4 * (n - 1) - 1 < n * n && n <= n * n) by (nonlinear_arith)
            requires
                1 <= n,
        ;
    } else {
        assert(n >= 3);
        lemma_spiral_index_range(n - 2, x - 1, y - 1);
        assert(4 * (n - 1) + (n - 2) * (n - 2) == n * n) by (nonlinear_arith)
            requires
                3 <= n,
        ;
    }
}

/// Distinct cells occupy distinct spiral positions.
pub proof fn lemma_spiral_index_injective(n: int, x1: int, y1: int, x2: int, y2: int)
    requires
        1 <= n,
        0 <= x1 < n,
        0 <= y1 < n,
        0 <= x2 < n,
        0 <= y2 < n,
        x1 != x2 || y1 != y2,
    ensures
        spiral_index(n, x1, y1) != spiral_index(n, x2, y2),
    decreases n,
{
    let ring1 = y1 == 0 || x1 == n - 1 || y1 == n - 1 || x1 == 0;
    let ring2 = y2 == 0 || x2 == n - 1 || y2 == n - 1 || x2 == 0;
    if ring1 && ring2 {
        // Both on the outer ring: the four sides fill the disjoint intervals
        // [0, n-1], [n, 2(n-1)], [2(n-1)+1, 3(n-1)] and [3(n-1)+1, 4(n-1)-1],
        // and along each side the position is a strictly monotone function of
        // the coordinate.
    } else if ring1 && !ring2 {
        lemma_spiral_index_range(n - 2, x2 - 1, y2 - 1);
    } else if !ring1 && ring2 {
        lemma_spiral_index_range(n - 2, x1 - 1, y1 - 1);
    } else {
        lemma_spiral_index_injective(n - 2, x1 - 1, y1 - 1, x2 - 1, y2 - 1);
    }
}

/// `spiral_cell` inverts `spiral_index`: position `k` of the walk is a cell
/// of the grid, and that cell's spiral position is `k`.
pub proof fn lemma_spiral_cell_inverse(n: int, k: int)
    requires
        1 <= n,
        0 <= k < n * n,
    ensures
        ({
            let (x, y) = spiral_cell(n, k);
            &&& 0 <= x < n
            &&& 0 <= y < n
            &&& spiral_index(n, x, y) == k
        }),
    decreases n,
{
    if k <= 4 * (n - 1) - 1 || n == 1 {
        assert(n == 1 ==> k == 0) by (nonlinear_arith)
            requires
                1 <= n,
                0 <= k < n * n,
        ;
    } else {
        assert(n >= 2);
        assert(n >= 3 && k - 4 * (n - 1) < (n - 2) * (n - 2)) by (nonlinear_arith)
            requires
                2 <= n,
                4 * (n - 1) <= k,
                k < n * n,
        ;
        lemma_spiral_cell_inverse(n - 2, k - 4 * (n - 1));
    }
}

/// The value the goal board holds at cell (x, y): the numbers 1…n²−1 laid
/// down along the spiral walk, with 0 at the walk's final cell.
pub open spec fn goal_value(n: int, x: int, y: int) -> usize {
    if spiral_index(n, x, y) == n * n - 1 {
        0
    } else {
        (spiral_index(n, x, y) + 1) as usize
    }
}

/// The goal board itself.
pub open spec fn goal_grid(n: int) -> Seq<Seq<usize>> {
    Seq::new(n as nat, |y: int| Seq::new(n as nat, |x: int| goal_value(n, x, y)))
}

/// The cell of the goal board that holds value `v`.
pub open spec fn goal_cell_of(n: int, v: usize) -> (int, int) {
    if v == 0 {
        spiral_cell(n, n * n - 1)
    } else {
        spiral_cell(n, v - 1)
    }
}

/// Every value in [0, n²) stands at exactly the cell `goal_cell_of` names.
pub proof fn lemma_goal_cell_of(n: int, v: usize)
    requires
        1 <= n <= MAX_SIZE,
        v < n * n,
    ensures
        ({
            let (x, y) = goal_cell_of(n, v);
            &&& 0 <= x < n
            &&& 0 <= y < n
            &&& goal_value(n, x, y) == v
        }),
{
    assert(1 <= n * n <= 65025) by (nonlinear_arith)
        requires
            1 <= n <= 255,
    ;
    if v == 0 {
        lemma_spiral_cell_inverse(n, n * n - 1);
    } else {
        lemma_spiral_cell_inverse(n, v - 1);
    }
}

/// Distinct cells of the goal board hold distinct values.
pub proof fn lemma_goal_value_injective(n: int, x1: int, y1: int, x2: int, y2: int)
    requires
        1 <= n <= MAX_SIZE,
        0 <= x1 < n,
        0 <= y1 < n,
        0 <= x2 < n,
        0 <= y2 < n,
        x1 != x2 || y1 != y2,
    ensures
        goal_value(n, x1, y1) != goal_value(n, x2, y2),
{
    assert(1 <= n * n <= 65025) by (nonlinear_arith)
        requires
            1 <= n <= 255,
    ;
    lemma_spiral_index_injective(n, x1, y1, x2, y2);
    lemma_spiral_index_range(n, x1, y1);
    lemma_spiral_index_range(n, x2, y2);
}

/// The goal cell of the value a cell holds is that cell itself.
pub proof fn lemma_goal_roundtrip(n: int, x: int, y: int)
    requires
        1 <= n <= MAX_SIZE,
        0 <= x < n,
        0 <= y < n,
    ensures
        goal_value(n, x, y) < n * n,
        goal_cell_of(n, goal_value(n, x, y)) == (x, y),
{
    assert(1 <= n * n <= 65025) by (nonlinear_arith)
        requires
            1 <= n <= 255,
    ;
    lemma_spiral_index_range(n, x, y);
    let v = goal_value(n, x, y);
    lemma_goal_cell_of(n, v);
    let (gx, gy) = goal_cell_of(n, v);
    if gx != x || gy != y {
        lemma_goal_value_injective(n, x, y, gx, gy);
    }
}

/// Compute the spiral position of a cell.
pub fn spiral_index_at(n: usize, x: usize, y: usize) -> (r: usize)
    requires
        1 <= n <= MAX_SIZE,
        x < n,
        y < n,
    ensures
        r as int == spiral_index(n as int, x as int, y as int),
        (r as int) < n * n,
    decreases n,
{
    proof {
        lemma_spiral_index_range(n as int, x as int, y as int);
        assert(n * n <= 65025) by (nonlinear_arith)
            requires
                n <= 255,
        ;
    }
    if y == 0 {
        x
    } else if x == n - 1 {
        (n - 1) + y
    } else if y == n - 1 {
        2 * (n - 1) + (n - 1 - x)
    } else if x == 0 {
        3 * (n - 1) + (n - 1 - y)
    } else {
        let inner = spiral_index_at(n - 2, x - 1, y - 1);
        proof {
            assert((n - 2) * (n - 2) + 4 * (n - 1) == n * n) by (nonlinear_arith)
                requires
                    3 <= n,
            ;
        }
        4 * (n - 1) + inner
    }
}

/// Compute the value the goal board holds at a cell.
pub fn goal_value_at(n: usize, x: usize, y: usize) -> (r: usize)
    requires
        1 <= n <= MAX_SIZE,
        x < n,
        y < n,
    ensures
        r == goal_value(n as int, x as int, y as int),
        r < n * n,
    {
    proof {
        assert(n * n <= 65025) by (nonlinear_arith)
            requires
                n <= 255,
        ;
    }
    let si = spiral_index_at(n, x, y);
    let nn = n * n;
    if si == nn - 1 {
        0
    } else {
        si + 1
    }
}

/// Compute the cell at position `k` of the spiral walk.
pub fn spiral_cell_at(n: usize, k: usize) -> (r: Pos)
    requires
        1 <= n <= MAX_SIZE,
        (k as int) < n * n,
    ensures
        r.x as int == spiral_cell(n as int, k as int).0,
        r.y as int == spiral_cell(n as int, k as int).1,
        r.x < n,
        r.y < n,
    decreases n,
{
    proof {
        lemma_spiral_cell_inverse(n as int, k as int);
        assert(n * n <= 65025) by (nonlinear_arith)
            requires
                n <= 255,
        ;
        assert(n == 1 ==> k == 0) by (nonlinear_arith)
            requires
                1 <= n,
                (k as int) < n * n,
        ;
    }
    if k <= n - 1 {
        Pos { x: k, y: 0 }
    } else if k <= 2 * (n - 1) {
        Pos { x: n - 1, y: k - (n - 1) }
    } else if k <= 3 * (n - 1) {
        Pos { x: (n - 1) - (k - 2 * (n - 1)), y: n - 1 }
    } else if k <= 4 * (n - 1) - 1 {
        Pos { x: 0, y: (n - 1) - (k - 3 * (n - 1)) }
    } else {
        proof {
            assert(k - 4 * (n - 1) < (n - 2) * (n - 2)) by (nonlinear_arith)
                requires
                    2 <= n,
                    (k as int) < n * n,
            ;
        }
        let inner = spiral_cell_at(n - 2, k - 4 * (n - 1));
        Pos { x: inner.x + 1, y: inner.y + 1 }
    }
}

/// Compute the goal cell of a value.
pub fn goal_cell_at(n: usize, v: usize) -> (r: Pos)
    requires
        1 <= n <= MAX_SIZE,
        (v as int) < n * n,
    ensures
        r.x as int == goal_cell_of(n as int, v).0,
        r.y as int == goal_cell_of(n as int, v).1,
        r.x < n,
        r.y < n,
        goal_value(n as int, r.x as int, r.y as int) == v,
{
    proof {
        assert(n * n <= 65025) by (nonlinear_arith)
            requires
                n <= 255,
        ;
        lemma_goal_cell_of(n as int, v);
    }
    if v == 0 {
        let nn = n * n;
        spiral_cell_at(n, nn - 1)
    } else {
        spiral_cell_at(n, v - 1)
    }
}

} // verus!
