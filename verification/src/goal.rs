use vstd::prelude::*;

use std::collections::HashMap;

use crate::board::{grids_eq, Puzzle, MAX_SIZE};
use crate::pos::Pos;
use crate::spiral::{
    goal_cell_at, goal_cell_of, goal_grid, goal_value, goal_value_at, lemma_goal_cell_of,
    lemma_goal_roundtrip, lemma_goal_value_injective,
};

verus! {

broadcast use vstd::std_specs::hash::group_hash_axioms;

/// The 1-based row-major position that value `v` occupies on the goal board,
/// with the value at the bottom-right cell mapped to 0 when `zero` is set.
pub open spec fn arrange_order(n: int, v: usize, zero: bool) -> usize {
    let (gx, gy) = goal_cell_of(n, v);
    if zero && gx == n - 1 && gy == n - 1 {
        0
    } else {
        (gy * n + gx + 1) as usize
    }
}

impl Puzzle {
    /// The canonical goal board for the given size: the spiral-filled
    /// arrangement with the blank at the spiral's final cell.
    pub fn new_answer(size: usize) -> (r: Puzzle)
        requires
            1 <= size <= MAX_SIZE,
        ensures
            r.wf(),
            r.size == size,
            r.grid() == goal_grid(size as int),
    {
        let n = size;
        let mut state: Vec<Vec<usize>> = Vec::new();
        let mut blank_pos = Pos::new(0, 0);
        let mut found = false;
        let mut y: usize = 0;
        while y < n
            invariant
                1 <= n <= MAX_SIZE,
                y <= n,
                state@.len() == y,
                forall|y0: int|
                    0 <= y0 < y ==> (#[trigger] state@[y0]@).len() == n && forall|x0: int|
                        0 <= x0 < n ==> state@[y0]@[x0] == goal_value(n as int, x0, y0),
                found ==> blank_pos.x < n && blank_pos.y < y && goal_value(
                    n as int,
                    blank_pos.x as int,
                    blank_pos.y as int,
                ) == 0,
                !found ==> forall|x0: int, y0: int|
                    0 <= x0 < n && 0 <= y0 < y ==> #[trigger] goal_value(n as int, x0, y0) != 0,
            decreases n - y,
        {
            let mut row: Vec<usize> = Vec::new();
            let mut x: usize = 0;
            while x < n
                invariant
                    1 <= n <= MAX_SIZE,
                    y < n,
                    x <= n,
                    row@.len() == x,
                    forall|x0: int| 0 <= x0 < x ==> row@[x0] == goal_value(n as int, x0, y as int),
                    found ==> blank_pos.x < n && blank_pos.y <= y && goal_value(
                        n as int,
                        blank_pos.x as int,
                        blank_pos.y as int,
                    ) == 0,
                    !found ==> (forall|x0: int, y0: int|
                        0 <= x0 < n && 0 <= y0 < y ==> #[trigger] goal_value(n as int, x0, y0)
                            != 0) && (forall|x0: int|
                        0 <= x0 < x ==> #[trigger] goal_value(n as int, x0, y as int) != 0),
                decreases n - x,
            {
                let v = goal_value_at(n, x, y);
                if v == 0 {
                    blank_pos = Pos::new(x, y);
                    found = true;
                }
                row.push(v);
                x += 1;
            }
            state.push(row);
            y += 1;
        }
        let res = Puzzle { size: n, state, blank_pos };
        proof {
            assert(res.grid() =~= goal_grid(n as int)) by {
                assert forall|y0: int| 0 <= y0 < n implies res.grid()[y0] =~= goal_grid(
                    n as int,
                )[y0] by {}
            }
            assert(1 <= n * n) by (nonlinear_arith)
                requires
                    1 <= n,
            ;
            lemma_goal_cell_of(n as int, 0);
            let (zx, zy) = goal_cell_of(n as int, 0);
            assert(goal_value(n as int, zx, zy) == 0);
            assert(found);
            assert(res.blank_ok());
            assert forall|x0: int, y0: int| 0 <= x0 < n && 0 <= y0 < n implies #[trigger] res.cell(
                x0,
                y0,
            ) < n * n by {
                lemma_goal_roundtrip(n as int, x0, y0);
            }
            assert forall|x1: int, y1: int, x2: int, y2: int|
                0 <= x1 < n && 0 <= y1 < n && 0 <= x2 < n && 0 <= y2 < n && (x1 != x2 || y1
                    != y2) implies #[trigger] res.cell(x1, y1) != #[trigger] res.cell(x2, y2) by {
                lemma_goal_value_injective(n as int, x1, y1, x2, y2);
            }
            assert(res.wf());
        }
        res
    }

    /// Whether this board's grid is exactly the goal arrangement.
    pub fn is_final_state(&self) -> (r: bool)
        requires
            1 <= self.size <= MAX_SIZE,
        ensures
            r == (self.grid() == goal_grid(self.size as int)),
    {
        let answer = Puzzle::new_answer(self.size);
        grids_eq(&self.state, &answer.state)
    }

    /// The tile at `pos` is not the blank and its goal cell lies in the same
    /// row.
    pub open spec fn spec_in_goal_row(self, pos: Pos) -> bool {
        &&& pos.x < self.size
        &&& pos.y < self.size
        &&& self.cell(pos.x as int, pos.y as int) != 0
        &&& goal_cell_of(self.size as int, self.cell(pos.x as int, pos.y as int)).1 == pos.y
    }

    /// The tile at `pos` is not the blank and its goal cell lies in the same
    /// column.
    pub open spec fn spec_in_goal_col(self, pos: Pos) -> bool {
        &&& pos.x < self.size
        &&& pos.y < self.size
        &&& self.cell(pos.x as int, pos.y as int) != 0
        &&& goal_cell_of(self.size as int, self.cell(pos.x as int, pos.y as int)).0 == pos.x
    }

    pub fn is_in_final_row(&self, pos: Pos) -> (r: bool)
        requires
            self.wf(),
        ensures
            r == self.spec_in_goal_row(pos),
    {
        let base_value = match self.get(pos) {
            Ok(value) => value,
            Err(_) => {
                return false;
            },
        };
        if base_value == 0 {
            return false;
        }
        let goal = goal_cell_at(self.size, base_value);
        goal.y == pos.y
    }

    pub fn is_in_final_col(&self, pos: Pos) -> (r: bool)
        requires
            self.wf(),
        ensures
            r == self.spec_in_goal_col(pos),
    {
        let base_value = match self.get(pos) {
            Ok(value) => value,
            Err(_) => {
                return false;
            },
        };
        if base_value == 0 {
            return false;
        }
        let goal = goal_cell_at(self.size, base_value);
        goal.x == pos.x
    }

    /// The map from each value in [0, size²) to its cell on the goal board.
    pub fn generate_answer_pos_map(size: usize) -> (r: HashMap<usize, Pos>)
        requires
            1 <= size <= MAX_SIZE,
        ensures
            forall|v: usize| (v as int) < size * size <==> #[trigger] r@.contains_key(v),
            forall|v: usize|
                (v as int) < size * size ==> (#[trigger] r@[v]).x as int == goal_cell_of(
                    size as int,
                    v,
                ).0 && r@[v].y as int == goal_cell_of(size as int, v).1,
    {
        proof {
            assert(size * size <= 65025) by (nonlinear_arith)
                requires
                    size <= 255,
            ;
        }
        let nn = size * size;
        let mut map: HashMap<usize, Pos> = HashMap::new();
        let mut v: usize = 0;
        while v < nn
            invariant
                1 <= size <= MAX_SIZE,
                nn == size * size,
                v <= nn,
                vstd::std_specs::hash::obeys_key_model::<usize>(),
                forall|w: usize| (w as int) < v <==> #[trigger] map@.contains_key(w),
                forall|w: usize|
                    (w as int) < v ==> (#[trigger] map@[w]).x as int == goal_cell_of(
                        size as int,
                        w,
                    ).0 && map@[w].y as int == goal_cell_of(size as int, w).1,
            decreases nn - v,
        {
            let pos = goal_cell_at(size, v);
            map.insert(v, pos);
            v += 1;
        }
        map
    }

    /// The map from each value in [0, size²) to the 1-based row-major index
    /// of its goal cell; with `zero` set, the value of the goal's bottom-right
    /// cell maps to 0 instead.
    pub fn generate_arrange_order_answer_map(size: usize, zero: bool) -> (r: HashMap<usize, usize>)
        requires
            1 <= size <= MAX_SIZE,
        ensures
            forall|v: usize| (v as int) < size * size <==> #[trigger] r@.contains_key(v),
            forall|v: usize|
                (v as int) < size * size ==> #[trigger] r@[v] == arrange_order(size as int, v, zero),
    {
        proof {
            assert(size * size <= 65025) by (nonlinear_arith)
                requires
                    size <= 255,
            ;
        }
        let nn = size * size;
        let mut map: HashMap<usize, usize> = HashMap::new();
        let mut v: usize = 0;
        while v < nn
            invariant
                1 <= size <= MAX_SIZE,
                nn == size * size,
                v <= nn,
                vstd::std_specs::hash::obeys_key_model::<usize>(),
                forall|w: usize| (w as int) < v <==> #[trigger] map@.contains_key(w),
                forall|w: usize|
                    (w as int) < v ==> #[trigger] map@[w] == arrange_order(size as int, w, zero),
            decreases nn - v,
        {
            let pos = goal_cell_at(size, v);
            proof {
                assert(pos.y as int * size as int + pos.x as int + 1 <= size * size)
                    by (nonlinear_arith)
                    requires
                        (pos.x as int) < size,
                        (pos.y as int) < size,
                        0 <= pos.x as int,
                        0 <= pos.y as int,
                ;
            }
            let idx = if zero && pos.x == size - 1 && pos.y == size - 1 {
                0
            } else {
                pos.y * size + pos.x + 1
            };
            map.insert(v, idx);
            v += 1;
        }
        map
    }
}

} // verus!
