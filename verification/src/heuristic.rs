use vstd::prelude::*;

use crate::board::Puzzle;
use crate::errors::PuzzleError;
use crate::inversion::{inversion_distance, inversion_distance_spec};
use crate::pos::Pos;
use crate::spiral::{goal_cell_at, goal_cell_of, goal_value, goal_value_at};

verus! {

/// The heuristic selector; `None` stands for "not chosen" and is an error to
/// evaluate.
#[derive(Debug, Clone, Copy, PartialEq, Eq, Structural)]
pub enum Heuristic {
    Manhattan,
    Hamming,
    LinearConflict,
    InversionDistance,
    /// The constant-zero estimate, which reduces the best-first search to
    /// uniform cost.
    Zero,
    NotSet,
}

/// The Manhattan contribution of the cell with flat row-major index `i` of
/// an n-wide grid: the taxicab distance from the tile there to its goal
/// cell; the blank contributes 0.
pub open spec fn manhattan_cell(n: int, g: Seq<Seq<usize>>, i: int) -> int {
    let x = i % n;
    let y = i / n;
    let v = g[y][x];
    if v == 0 {
        0
    } else {
        let (gx, gy) = goal_cell_of(n, v);
        abs_diff_int(x, gx) + abs_diff_int(y, gy)
    }
}

pub open spec fn abs_diff_int(a: int, b: int) -> int {
    if a >= b {
        a - b
    } else {
        b - a
    }
}

/// Sum of the Manhattan contributions of the first `i` cells.
pub open spec fn manhattan_sum(n: int, g: Seq<Seq<usize>>, i: int) -> int
    decreases i,
{
    if i <= 0 {
        0
    } else {
        manhattan_sum(n, g, i - 1) + manhattan_cell(n, g, i - 1)
    }
}

/// The Manhattan heuristic: the sum over all non-blank tiles of the taxicab
/// distance to their goal cells.
pub open spec fn manhattan_spec(p: Puzzle) -> int {
    manhattan_sum(p.size as int, p.grid(), p.size as int * p.size as int)
}

/// The Hamming contribution of the cell with flat index `i`: 1 when a
/// non-blank tile stands on a cell that is not its goal cell.
pub open spec fn hamming_cell(n: int, g: Seq<Seq<usize>>, i: int) -> int {
    let x = i % n;
    let y = i / n;
    let v = g[y][x];
    if v != 0 && v != goal_value(n, x, y) {
        1
    } else {
        0
    }
}

pub open spec fn hamming_sum(n: int, g: Seq<Seq<usize>>, i: int) -> int
    decreases i,
{
    if i <= 0 {
        0
    } else {
        hamming_sum(n, g, i - 1) + hamming_cell(n, g, i - 1)
    }
}

/// The Hamming heuristic: the number of non-blank tiles away from their goal
/// cells.
pub open spec fn hamming_spec(p: Puzzle) -> int {
    hamming_sum(p.size as int, p.grid(), p.size as int * p.size as int)
}

/// 1 when the tiles at columns `i` and `j` of `row` are both in their goal
/// row and their goal columns are inverted relative to their current order.
pub open spec fn row_conflict_pair(p: Puzzle, row: int, i: int, j: int) -> int {
    let pi = Pos { x: i as usize, y: row as usize };
    let pj = Pos { x: j as usize, y: row as usize };
    if p.spec_in_goal_row(pi) && p.spec_in_goal_row(pj) && goal_cell_of(
        p.size as int,
        p.cell(i, row),
    ).0 > goal_cell_of(p.size as int, p.cell(j, row)).0 {
        1
    } else {
        0
    }
}

pub open spec fn row_conflicts_inner(p: Puzzle, row: int, i: int, j: int) -> int
    decreases p.size as int - j,
{
    if j >= p.size as int {
        0
    } else {
        row_conflict_pair(p, row, i, j) + row_conflicts_inner(p, row, i, j + 1)
    }
}

pub open spec fn row_conflicts_outer(p: Puzzle, row: int, i: int) -> int
    decreases p.size as int - i,
{
    if i >= p.size as int {
        0
    } else {
        row_conflicts_inner(p, row, i, i + 1) + row_conflicts_outer(p, row, i + 1)
    }
}

/// The number of linear conflicts within `row`.
pub open spec fn row_conflicts(p: Puzzle, row: int) -> int {
    row_conflicts_outer(p, row, 0)
}

/// 1 when the tiles at rows `i` and `j` of column `col` are both in their
/// goal column and their goal rows are inverted relative to their current
/// order.
pub open spec fn col_conflict_pair(p: Puzzle, col: int, i: int, j: int) -> int {
    let pi = Pos { x: col as usize, y: i as usize };
    let pj = Pos { x: col as usize, y: j as usize };
    if p.spec_in_goal_col(pi) && p.spec_in_goal_col(pj) && goal_cell_of(
        p.size as int,
        p.cell(col, i),
    ).1 > goal_cell_of(p.size as int, p.cell(col, j)).1 {
        1
    } else {
        0
    }
}

pub open spec fn col_conflicts_inner(p: Puzzle, col: int, i: int, j: int) -> int
    decreases p.size as int - j,
{
    if j >= p.size as int {
        0
    } else {
        col_conflict_pair(p, col, i, j) + col_conflicts_inner(p, col, i, j + 1)
    }
}

pub open spec fn col_conflicts_outer(p: Puzzle, col: int, i: int) -> int
    decreases p.size as int - i,
{
    if i >= p.size as int {
        0
    } else {
        col_conflicts_inner(p, col, i, i + 1) + col_conflicts_outer(p, col, i + 1)
    }
}

/// The number of linear conflicts within `col`.
pub open spec fn col_conflicts(p: Puzzle, col: int) -> int {
    col_conflicts_outer(p, col, 0)
}

/// Conflicts of the first `k` rows and first `k` columns together.
pub open spec fn conflicts_sum(p: Puzzle, k: int) -> int
    decreases k,
{
    if k <= 0 {
        0
    } else {
        conflicts_sum(p, k - 1) + row_conflicts(p, k - 1) + col_conflicts(p, k - 1)
    }
}

/// The Linear Conflict heuristic: Manhattan plus two for every conflicting
/// pair, over all rows and columns.
pub open spec fn linear_conflict_spec(p: Puzzle) -> int {
    manhattan_spec(p) + 2 * conflicts_sum(p, p.size as int)
}

/// The value of a heuristic tag on a board; `None` is never evaluated.
pub open spec fn heuristic_spec(h: Heuristic, p: Puzzle) -> int {
    match h {
        Heuristic::Manhattan => manhattan_spec(p),
        Heuristic::Hamming => hamming_spec(p),
        Heuristic::LinearConflict => linear_conflict_spec(p),
        Heuristic::InversionDistance => inversion_distance_spec(p),
        Heuristic::Zero => 0,
        Heuristic::NotSet => 0,
    }
}

impl Heuristic {
    /// Validate the selection: every tag but `None` stands for a heuristic
    /// function; `None` fails with `HeuristicNotSet`.
    pub fn get_heuristic(&self) -> (r: Result<Heuristic, PuzzleError>)
        ensures
            match r {
                Ok(h) => h == *self && *self != Heuristic::NotSet,
                Err(e) => e == PuzzleError::HeuristicNotSet && *self == Heuristic::NotSet,
            },
    {
        match self {
            Heuristic::NotSet => Err(PuzzleError::HeuristicNotSet),
            _ => Ok(*self),
        }
    }

    /// Evaluate the selected heuristic on a board.  Every heuristic is a pure
    /// function of the board value: repeated calls return the same value.
    pub fn evaluate(&self, puzzle: &Puzzle) -> (r: usize)
        requires
            puzzle.wf(),
            *self != Heuristic::NotSet,
        ensures
            r == heuristic_spec(*self, *puzzle),
    {
        match self {
            Heuristic::Manhattan => manhattan(puzzle),
            Heuristic::Hamming => hamming(puzzle),
            Heuristic::LinearConflict => linear_conflict(puzzle),
            Heuristic::InversionDistance => inversion_distance(puzzle),
            Heuristic::Zero => 0,
            Heuristic::NotSet => 0,
        }
    }
}

/// The Manhattan heuristic.
pub fn manhattan(puzzle: &Puzzle) -> (r: usize)
    requires
        puzzle.wf(),
    ensures
        r == manhattan_spec(*puzzle),
        r <= 33162750,
{
    let n = puzzle.get_size();
    proof {
        assert(n * n <= 65025) by (nonlinear_arith)
            requires
                n <= 255,
        ;
    }
    let nn = n * n;
    let mut distance: usize = 0;
    let mut i: usize = 0;
    while i < nn
        invariant
            puzzle.wf(),
            n == puzzle.size,
            nn == n * n,
            nn <= 65025,
            i <= nn,
            distance <= 510 * i,
            distance == manhattan_sum(n as int, puzzle.grid(), i as int),
        decreases nn - i,
    {
        let x = i % n;
        let y = i / n;
        proof {
            assert((i as int) / (n as int) < (n as int)) by (nonlinear_arith)
                requires
                    0 < n,
                    (i as int) < n as int * n as int,
            ;
        }
        let v = match puzzle.get(Pos::new(x, y)) {
            Ok(v) => v,
            Err(_) => 0,
        };
        if v != 0 {
            let g = goal_cell_at(n, v);
            let dx = if x >= g.x {
                x - g.x
            } else {
                g.x - x
            };
            let dy = if y >= g.y {
                y - g.y
            } else {
                g.y - y
            };
            distance = distance + dx + dy;
        }
        i += 1;
    }
    distance
}

/// The Hamming heuristic.
pub fn hamming(puzzle: &Puzzle) -> (r: usize)
    requires
        puzzle.wf(),
    ensures
        r == hamming_spec(*puzzle),
        r <= 65025,
{
    let n = puzzle.get_size();
    proof {
        assert(n * n <= 65025) by (nonlinear_arith)
            requires
                n <= 255,
        ;
    }
    let nn = n * n;
    let mut distance: usize = 0;
    let mut i: usize = 0;
    while i < nn
        invariant
            puzzle.wf(),
            n == puzzle.size,
            nn == n * n,
            nn <= 65025,
            i <= nn,
            distance <= i,
            distance == hamming_sum(n as int, puzzle.grid(), i as int),
        decreases nn - i,
    {
        let x = i % n;
        let y = i / n;
        proof {
            assert((i as int) / (n as int) < (n as int)) by (nonlinear_arith)
                requires
                    0 < n,
                    (i as int) < n as int * n as int,
            ;
        }
        let v = match puzzle.get(Pos::new(x, y)) {
            Ok(v) => v,
            Err(_) => 0,
        };
        if v != 0 {
            let gv = goal_value_at(n, x, y);
            if v != gv {
                distance += 1;
            }
        }
        i += 1;
    }
    distance
}

/// The number of linear conflicts within one row.
pub fn count_row_conflicts(puzzle: &Puzzle, row: usize) -> (r: usize)
    requires
        puzzle.wf(),
        row < puzzle.size,
    ensures
        r == row_conflicts(*puzzle, row as int),
        r <= 65025,
{
    let n = puzzle.get_size();
    let mut conflicts: usize = 0;
    let mut i: usize = 0;
    while i < n
        invariant
            puzzle.wf(),
            n == puzzle.size,
            row < n,
            i <= n,
            conflicts <= 255 * i,
            conflicts + row_conflicts_outer(*puzzle, row as int, i as int) == row_conflicts(
                *puzzle,
                row as int,
            ),
        decreases n - i,
    {
        let in_row_i = puzzle.is_in_final_row(Pos::new(i, row));
        let mut j: usize = i + 1;
        proof {
            assert(row_conflicts_outer(*puzzle, row as int, i as int) == row_conflicts_inner(
                *puzzle,
                row as int,
                i as int,
                i as int + 1,
            ) + row_conflicts_outer(*puzzle, row as int, i as int + 1));
        }
        while j < n
            invariant
                puzzle.wf(),
                n == puzzle.size,
                row < n,
                i < n,
                i < j <= n,
                conflicts <= 255 * i + (j - i - 1),
                in_row_i == puzzle.spec_in_goal_row(Pos { x: i, y: row }),
                conflicts + row_conflicts_inner(*puzzle, row as int, i as int, j as int)
                    + row_conflicts_outer(*puzzle, row as int, i as int + 1) == row_conflicts(
                    *puzzle,
                    row as int,
                ),
            decreases n - j,
        {
            if in_row_i {
                let in_row_j = puzzle.is_in_final_row(Pos::new(j, row));
                if in_row_j {
                    let vi = match puzzle.get(Pos::new(i, row)) {
                        Ok(v) => v,
                        Err(_) => 0,
                    };
                    let vj = match puzzle.get(Pos::new(j, row)) {
                        Ok(v) => v,
                        Err(_) => 0,
                    };
                    let gi = goal_cell_at(n, vi);
                    let gj = goal_cell_at(n, vj);
                    if gi.x > gj.x {
                        conflicts += 1;
                    }
                }
            }
            j += 1;
        }
        i += 1;
    }
    conflicts
}

/// The number of linear conflicts within one column.
pub fn count_col_conflicts(puzzle: &Puzzle, col: usize) -> (r: usize)
    requires
        puzzle.wf(),
        col < puzzle.size,
    ensures
        r == col_conflicts(*puzzle, col as int),
        r <= 65025,
{
    let n = puzzle.get_size();
    let mut conflicts: usize = 0;
    let mut i: usize = 0;
    while i < n
        invariant
            puzzle.wf(),
            n == puzzle.size,
            col < n,
            i <= n,
            conflicts <= 255 * i,
            conflicts + col_conflicts_outer(*puzzle, col as int, i as int) == col_conflicts(
                *puzzle,
                col as int,
            ),
        decreases n - i,
    {
        let in_col_i = puzzle.is_in_final_col(Pos::new(col, i));
        let mut j: usize = i + 1;
        proof {
            assert(col_conflicts_outer(*puzzle, col as int, i as int) == col_conflicts_inner(
                *puzzle,
                col as int,
                i as int,
                i as int + 1,
            ) + col_conflicts_outer(*puzzle, col as int, i as int + 1));
        }
        while j < n
            invariant
                puzzle.wf(),
                n == puzzle.size,
                col < n,
                i < n,
                i < j <= n,
                conflicts <= 255 * i + (j - i - 1),
                in_col_i == puzzle.spec_in_goal_col(Pos { x: col, y: i }),
                conflicts + col_conflicts_inner(*puzzle, col as int, i as int, j as int)
                    + col_conflicts_outer(*puzzle, col as int, i as int + 1) == col_conflicts(
                    *puzzle,
                    col as int,
                ),
            decreases n - j,
        {
            if in_col_i {
                let in_col_j = puzzle.is_in_final_col(Pos::new(col, j));
                if in_col_j {
                    let vi = match puzzle.get(Pos::new(col, i)) {
                        Ok(v) => v,
                        Err(_) => 0,
                    };
                    let vj = match puzzle.get(Pos::new(col, j)) {
                        Ok(v) => v,
                        Err(_) => 0,
                    };
                    let gi = goal_cell_at(n, vi);
                    let gj = goal_cell_at(n, vj);
                    if gi.y > gj.y {
                        conflicts += 1;
                    }
                }
            }
            j += 1;
        }
        i += 1;
    }
    conflicts
}

/// The Linear Conflict heuristic.
pub fn linear_conflict(puzzle: &Puzzle) -> (r: usize)
    requires
        puzzle.wf(),
    ensures
        r == linear_conflict_spec(*puzzle),
        r <= 99488250,
{
    let n = puzzle.get_size();
    let mut distance = manhattan(puzzle);
    let mut conflicts: usize = 0;
    let mut i: usize = 0;
    while i < n
        invariant
            puzzle.wf(),
            n == puzzle.size,
            i <= n,
            conflicts <= 130050 * i,
            conflicts == conflicts_sum(*puzzle, i as int),
        decreases n - i,
    {
        let rc = count_row_conflicts(puzzle, i);
        let cc = count_col_conflicts(puzzle, i);
        conflicts = conflicts + rc + cc;
        i += 1;
    }
    distance = distance + conflicts * 2;
    distance
}

} // verus!
