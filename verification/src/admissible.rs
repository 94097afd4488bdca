use vstd::prelude::*;

use crate::board::{solves, Board, Puzzle, MAX_SIZE};
use crate::heuristic::{
    abs_diff_int, hamming_cell, hamming_spec, hamming_sum, manhattan_cell, manhattan_spec,
    manhattan_sum,
};
use crate::moves::Move;
use crate::spiral::{goal_grid, goal_value, lemma_goal_roundtrip};

verus! {

/// The board invariant at the level of the mathematical board value.
pub open spec fn board_wf(b: Board) -> bool {
    &&& 1 <= b.n <= MAX_SIZE
    &&& b.grid.len() == b.n
    &&& forall|y: int| 0 <= y < b.n ==> (#[trigger] b.grid[y]).len() == b.n
    &&& forall|x: int, y: int|
        0 <= x < b.n && 0 <= y < b.n ==> (#[trigger] b.grid[y][x]) < b.n * b.n
    &&& forall|x1: int, y1: int, x2: int, y2: int|
        0 <= x1 < b.n && 0 <= y1 < b.n && 0 <= x2 < b.n && 0 <= y2 < b.n && (x1 != x2 || y1 != y2)
            ==> #[trigger] b.grid[y1][x1] != #[trigger] b.grid[y2][x2]
    &&& 0 <= b.bx < b.n
    &&& 0 <= b.by < b.n
    &&& b.grid[b.by][b.bx] == 0
}

/// A well-formed puzzle's mathematical value is a well-formed board.
pub proof fn lemma_model_wf(p: Puzzle)
    requires
        p.wf(),
    ensures
        board_wf(p.model()),
{
    assert forall|x: int, y: int|
        0 <= x < p.size && 0 <= y < p.size implies (#[trigger] p.model().grid[y][x]) < p.size
        * p.size by {
        assert(p.cell(x, y) < p.size * p.size);
    }
    assert forall|x1: int, y1: int, x2: int, y2: int|
        0 <= x1 < p.size && 0 <= y1 < p.size && 0 <= x2 < p.size && 0 <= y2 < p.size && (x1 != x2
            || y1 != y2) implies #[trigger] p.model().grid[y1][x1] != #[trigger] p.model(
    ).grid[y2][x2] by {
        assert(p.cell(x1, y1) != p.cell(x2, y2));
    }
}

/// A legal move keeps the board invariant, and changes exactly the blank
/// cell and its neighbour: the neighbour's tile moves onto the blank.
pub proof fn lemma_do_move_cells(b: Board, mv: Move)
    requires
        board_wf(b),
        b.legal(mv),
    ensures
        board_wf(b.do_move(mv)),
        b.do_move(mv).n == b.n,
        0 <= b.do_move(mv).bx < b.n,
        0 <= b.do_move(mv).by < b.n,
        b.do_move(mv).bx == b.dest(mv).0,
        b.do_move(mv).by == b.dest(mv).1,
        forall|x: int, y: int|
            0 <= x < b.n && 0 <= y < b.n ==> #[trigger] b.do_move(mv).grid[y][x] == (if x == b.bx
                && y == b.by {
                b.grid[b.dest(mv).1][b.dest(mv).0]
            } else if x == b.dest(mv).0 && y == b.dest(mv).1 {
                0usize
            } else {
                b.grid[y][x]
            }),
{
    let (dx, dy) = b.dest(mv);
    let v = b.grid[dy][dx];
    let b2 = b.do_move(mv);
    assert forall|x: int, y: int| 0 <= x < b.n && 0 <= y < b.n implies #[trigger] b2.grid[y][x]
        == (if x == b.bx && y == b.by {
        v
    } else if x == dx && y == dy {
        0usize
    } else {
        b.grid[y][x]
    }) by {
        assert(b.grid[y].len() == b.n);
        assert(b.grid[b.by].len() == b.n);
        assert(b.grid[dy].len() == b.n);
    }
    assert forall|x: int, y: int| 0 <= x < b.n && 0 <= y < b.n implies (#[trigger] b2.grid[y][x])
        < b.n * b.n by {
        assert(b2.grid[y][x] == v || b2.grid[y][x] == 0 || b2.grid[y][x] == b.grid[y][x]);
        assert(0 < b.n * b.n) by (nonlinear_arith)
            requires
                1 <= b.n,
        ;
    }
    assert forall|x1: int, y1: int, x2: int, y2: int|
        0 <= x1 < b.n && 0 <= y1 < b.n && 0 <= x2 < b.n && 0 <= y2 < b.n && (x1 != x2 || y1
            != y2) implies #[trigger] b2.grid[y1][x1] != #[trigger] b2.grid[y2][x2] by {
        assert(b.grid[b.by][b.bx] == 0);
        assert(b.bx != dx || b.by != dy);
    }
}

/// The flat index of a cell determines its coordinates.
proof fn lemma_flat_coords(n: int, x: int, y: int)
    requires
        1 <= n,
        0 <= x < n,
        0 <= y < n,
    ensures
        0 <= y * n + x < n * n,
        (y * n + x) % n == x,
        (y * n + x) / n == y,
    decreases n,
{
    assert(0 <= y * n + x < n * n && (y * n + x) % n == x && (y * n + x) / n == y)
        by (nonlinear_arith)
        requires
            1 <= n,
            0 <= x < n,
            0 <= y < n,
    ;
}

/// Partial Manhattan sums of the goal board are zero: every tile is home.
proof fn lemma_manhattan_goal_zero(n: int, i: int)
    requires
        1 <= n <= MAX_SIZE,
        0 <= i <= n * n,
    ensures
        manhattan_sum(n, goal_grid(n), i) == 0,
    decreases i,
{
    if i > 0 {
        lemma_manhattan_goal_zero(n, i - 1);
        let k = i - 1;
        let x = k % n;
        let y = k / n;
        assert(0 <= x < n && 0 <= y < n) by (nonlinear_arith)
            requires
                1 <= n,
                0 <= k < n * n,
                x == k % n,
                y == k / n,
        ;
        assert(goal_grid(n)[y] == Seq::new(n as nat, |x0: int| goal_value(n, x0, y)));
        let v = goal_grid(n)[y][x];
        assert(v == goal_value(n, x, y));
        if v != 0 {
            lemma_goal_roundtrip(n, x, y);
        }
    }
}

/// Two grids that agree on every cell except two flat positions have
/// Manhattan sums that differ exactly by the changed contributions.
proof fn lemma_manhattan_sum_two_cells(
    n: int,
    g1: Seq<Seq<usize>>,
    g2: Seq<Seq<usize>>,
    i: int,
    k1: int,
    k2: int,
)
    requires
        1 <= n,
        0 <= k1 < n * n,
        0 <= k2 < n * n,
        k1 != k2,
        i <= n * n,
        forall|k: int|
            0 <= k < n * n && k != k1 && k != k2 ==> manhattan_cell(n, g2, k) == manhattan_cell(
                n,
                g1,
                k,
            ),
    ensures
        manhattan_sum(n, g2, i) - manhattan_sum(n, g1, i) == (if 0 <= k1 < i {
            manhattan_cell(n, g2, k1) - manhattan_cell(n, g1, k1)
        } else {
            0
        }) + (if 0 <= k2 < i {
            manhattan_cell(n, g2, k2) - manhattan_cell(n, g1, k2)
        } else {
            0
        }),
    decreases i,
{
    if i > 0 {
        lemma_manhattan_sum_two_cells(n, g1, g2, i - 1, k1, k2);
    }
}

/// One move changes the Manhattan estimate by at most one: only the moved
/// tile's distance changes, and it moves one step.
proof fn lemma_manhattan_step(b: Board, mv: Move)
    requires
        board_wf(b),
        b.legal(mv),
    ensures
        manhattan_sum(b.n, b.grid, b.n * b.n) <= manhattan_sum(
            b.n,
            b.do_move(mv).grid,
            b.n * b.n,
        ) + 1,
{
    let n = b.n;
    let (dx, dy) = b.dest(mv);
    let b2 = b.do_move(mv);
    lemma_do_move_cells(b, mv);
    let k1 = b.by * n + b.bx;
    let k2 = dy * n + dx;
    lemma_flat_coords(n, b.bx, b.by);
    lemma_flat_coords(n, dx, dy);
    assert(k1 != k2) by (nonlinear_arith)
        requires
            1 <= n,
            0 <= b.bx < n,
            0 <= b.by < n,
            0 <= dx < n,
            0 <= dy < n,
            b.bx != dx || b.by != dy,
            k1 == b.by * n + b.bx,
            k2 == dy * n + dx,
    ;
    assert forall|k: int|
        0 <= k < n * n && k != k1 && k != k2 implies manhattan_cell(n, b2.grid, k)
        == manhattan_cell(n, b.grid, k) by {
        let x = k % n;
        let y = k / n;
        assert(0 <= x < n && 0 <= y < n && k == y * n + x) by (nonlinear_arith)
            requires
                1 <= n,
                0 <= k < n * n,
                x == k % n,
                y == k / n,
        ;
        if x == b.bx && y == b.by {
            assert(k == k1);
        }
        if x == dx && y == dy {
            assert(k == k2);
        }
        assert(b2.grid[y][x] == b.grid[y][x]);
    }
    lemma_manhattan_sum_two_cells(n, b.grid, b2.grid, n * n, k1, k2);
    let v = b.grid[dy][dx];
    assert(v != 0);
    // Old contributions: the blank cell counts zero, the tile sits at the
    // neighbour.  New contributions: the tile sits at the old blank cell,
    // the neighbour is now blank.
    assert(manhattan_cell(n, b.grid, k1) == 0);
    assert(manhattan_cell(n, b2.grid, k2) == 0);
    assert(b2.grid[b.by][b.bx] == v);
    assert(abs_diff_int(b.bx, dx) + abs_diff_int(b.by, dy) == 1);
    assert(manhattan_cell(n, b2.grid, k1) <= manhattan_cell(n, b.grid, k2) + 1);
}

/// The Manhattan estimate never exceeds the length of any move sequence
/// that solves the board: it is an admissible lower bound on the true
/// distance to the goal.
pub proof fn lemma_manhattan_admissible_model(b: Board, path: Seq<Move>)
    requires
        board_wf(b),
        solves(b, path),
    ensures
        manhattan_sum(b.n, b.grid, b.n * b.n) <= path.len(),
    decreases path.len(),
{
    if path.len() == 0 {
        assert(b.grid == goal_grid(b.n));
        lemma_manhattan_goal_zero(b.n, b.n * b.n);
    } else {
        assert(b.legal(path[0]));
        let b2 = b.do_move(path[0]);
        lemma_do_move_cells(b, path[0]);
        assert(solves(b2, path.drop_first()));
        lemma_manhattan_admissible_model(b2, path.drop_first());
        lemma_manhattan_step(b, path[0]);
    }
}

/// Manhattan admissibility, stated on the puzzle type: whenever a move
/// sequence solves a well-formed board, the Manhattan heuristic of that
/// board is at most the sequence's length.
pub proof fn lemma_manhattan_admissible(p: Puzzle, path: Seq<Move>)
    requires
        p.wf(),
        solves(p.model(), path),
    ensures
        manhattan_spec(p) <= path.len(),
{
    lemma_model_wf(p);
    lemma_manhattan_admissible_model(p.model(), path);
}

/// A misplaced tile is at least one step from home, so each cell's Hamming
/// contribution is at most its Manhattan contribution.
proof fn lemma_hamming_le_manhattan_sum(n: int, g: Seq<Seq<usize>>, i: int)
    requires
        1 <= n <= MAX_SIZE,
        i <= n * n,
        forall|x: int, y: int| 0 <= x < n && 0 <= y < n ==> (#[trigger] g[y][x]) < n * n,
    ensures
        hamming_sum(n, g, i) <= manhattan_sum(n, g, i),
    decreases i,
{
    if i > 0 {
        lemma_hamming_le_manhattan_sum(n, g, i - 1);
        let k = i - 1;
        let x = k % n;
        let y = k / n;
        assert(0 <= x < n && 0 <= y < n) by (nonlinear_arith)
            requires
                1 <= n,
                0 <= k < n * n,
                x == k % n,
                y == k / n,
        ;
        let v = g[y][x];
        if v != 0 && v != goal_value(n, x, y) {
            lemma_goal_roundtrip(n, x, y);
            crate::spiral::lemma_goal_cell_of(n, v);
            let (gx, gy) = crate::spiral::goal_cell_of(n, v);
            if gx == x && gy == y {
                assert(goal_value(n, x, y) == v);
            }
            assert(abs_diff_int(x, gx) + abs_diff_int(y, gy) >= 1);
        }
    }
}

/// Hamming admissibility: the count of misplaced tiles is bounded by the
/// Manhattan estimate, which is itself bounded by any solving path.
pub proof fn lemma_hamming_admissible(p: Puzzle, path: Seq<Move>)
    requires
        p.wf(),
        solves(p.model(), path),
    ensures
        hamming_spec(p) <= manhattan_spec(p),
        hamming_spec(p) <= path.len(),
{
    lemma_model_wf(p);
    let n = p.size as int;
    assert forall|x: int, y: int| 0 <= x < n && 0 <= y < n implies (#[trigger] p.grid()[y][x]) < n
        * n by {
        assert(p.cell(x, y) < n * n);
    }
    lemma_hamming_le_manhattan_sum(n, p.grid(), n * n);
    lemma_manhattan_admissible(p, path);
}

} // verus!
