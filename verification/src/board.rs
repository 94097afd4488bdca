use vstd::pervasive::VecAdditionalExecFns;
use vstd::prelude::*;

use crate::errors::PuzzleError;
use crate::moves::Move;
use crate::pos::Pos;

verus! {

/// Largest board edge the library accepts.  The cap keeps every count the
/// library computes (cell indices, heuristic sums, inversion counts) inside
/// `usize` on every supported machine word size.
pub const MAX_SIZE: usize = 255;

/// The mathematical value of a puzzle: edge length, cell grid and blank
/// coordinate, free of any representation detail.
pub ghost struct Board {
    pub n: int,
    pub grid: Seq<Seq<usize>>,
    pub bx: int,
    pub by: int,
}

impl Board {
    /// Cell lookup on the model.
    pub open spec fn cell(self, x: int, y: int) -> usize {
        self.grid[y][x]
    }

    /// The coordinate the blank would travel to under `mv`.
    pub open spec fn dest(self, mv: Move) -> (int, int) {
        match mv {
            Move::Up => (self.bx, self.by - 1),
            Move::Down => (self.bx, self.by + 1),
            Move::Left => (self.bx - 1, self.by),
            Move::Right => (self.bx + 1, self.by),
        }
    }

    /// Whether the blank may travel in direction `mv` (it is not on the
    /// corresponding border).
    pub open spec fn legal(self, mv: Move) -> bool {
        match mv {
            Move::Up => self.by >= 1,
            Move::Down => self.by < self.n - 1,
            Move::Left => self.bx >= 1,
            Move::Right => self.bx < self.n - 1,
        }
    }

    /// The board after the blank travelled in direction `mv`: the blank cell
    /// receives the neighbour's tile and the neighbour becomes the blank.
    pub open spec fn do_move(self, mv: Move) -> Board {
        let (dx, dy) = self.dest(mv);
        let v = self.grid[dy][dx];
        let g1 = self.grid.update(self.by, self.grid[self.by].update(self.bx, v));
        let g2 = g1.update(dy, g1[dy].update(dx, 0));
        Board { n: self.n, grid: g2, bx: dx, by: dy }
    }

    /// Applying a whole move sequence, first element first; `None` as soon as
    /// one move is illegal.
    pub open spec fn apply_path(self, path: Seq<Move>) -> Option<Board>
        decreases path.len(),
    {
        if path.len() == 0 {
            Some(self)
        } else if self.legal(path[0]) {
            self.do_move(path[0]).apply_path(path.drop_first())
        } else {
            None
        }
    }
}

/// A move sequence solves a board when applying it move by move is legal
/// throughout and ends on the goal arrangement.
pub open spec fn solves(start: Board, path: Seq<Move>) -> bool {
    match start.apply_path(path) {
        Some(end) => end.grid == crate::spiral::goal_grid(start.n),
        None => false,
    }
}

/// Extending a path by one legal move extends its application by that move.
pub proof fn lemma_apply_path_push(s: Board, p: Seq<Move>, mv: Move, b: Board)
    requires
        s.apply_path(p) == Some(b),
        b.legal(mv),
    ensures
        s.apply_path(p.push(mv)) == Some(b.do_move(mv)),
    decreases p.len(),
{
    let q = p.push(mv);
    if p.len() == 0 {
        assert(s.apply_path(p) == Some(s));
        assert(s == b);
        assert(q[0] == mv);
        assert(q.drop_first() =~= Seq::<Move>::empty());
        assert(s.apply_path(q) == s.do_move(mv).apply_path(q.drop_first()));
        assert(s.do_move(mv).apply_path(Seq::<Move>::empty()) == Some(s.do_move(mv)));
    } else {
        assert(s.legal(p[0]));
        assert(q[0] == p[0]);
        assert(q.drop_first() =~= p.drop_first().push(mv));
        lemma_apply_path_push(s.do_move(p[0]), p.drop_first(), mv, b);
        assert(s.apply_path(q) == s.do_move(q[0]).apply_path(q.drop_first()));
        assert(s.do_move(p[0]).apply_path(p.drop_first().push(mv)) == Some(b.do_move(mv)));
    }
}

/// Applying a path is applying a prefix and then the rest.
pub proof fn lemma_apply_path_split(s: Board, p: Seq<Move>, i: int)
    requires
        0 <= i <= p.len(),
    ensures
        s.apply_path(p) == (match s.apply_path(p.take(i)) {
            Some(c) => c.apply_path(p.skip(i)),
            None => None::<Board>,
        }),
    decreases i,
{
    if i == 0 {
        assert(p.take(0) =~= Seq::<Move>::empty());
        assert(p.skip(0) =~= p);
    } else {
        assert(p.take(i)[0] == p[0]);
        assert(p.len() > 0);
        if s.legal(p[0]) {
            let s2 = s.do_move(p[0]);
            assert(p.drop_first().take(i - 1) =~= p.take(i).drop_first());
            assert(p.drop_first().skip(i - 1) =~= p.skip(i));
            lemma_apply_path_split(s2, p.drop_first(), i - 1);
            assert(s.apply_path(p) == s2.apply_path(p.drop_first()));
            assert(s.apply_path(p.take(i)) == s2.apply_path(p.take(i).drop_first()));
        }
    }
}

/// The rows as a sequence of cell sequences.
pub open spec fn grid_of(rows: Seq<Vec<usize>>) -> Seq<Seq<usize>> {
    Seq::new(rows.len(), |y: int| rows[y]@)
}

/// Whether a grid can stand as a board: a square of edge at most `MAX_SIZE`,
/// every value in [0, n²), no value twice, and a zero cell present.
pub open spec fn rows_form_valid_board(g: Seq<Seq<usize>>) -> bool {
    let n = g.len() as int;
    &&& n <= MAX_SIZE
    &&& forall|y: int| 0 <= y < n ==> (#[trigger] g[y]).len() == n
    &&& forall|x: int, y: int| 0 <= x < n && 0 <= y < n ==> #[trigger] g[y][x] < n * n
    &&& forall|x1: int, y1: int, x2: int, y2: int|
        0 <= x1 < n && 0 <= y1 < n && 0 <= x2 < n && 0 <= y2 < n && (x1 != x2 || y1 != y2)
            ==> #[trigger] g[y1][x1] != #[trigger] g[y2][x2]
    &&& exists|x: int, y: int| 0 <= x < n && 0 <= y < n && #[trigger] g[y][x] == 0
}

/// An N×N sliding-tile board: the grid of cell values with the cached blank
/// coordinate.  The value 0 denotes the blank.
#[derive(Debug)]
pub struct Puzzle {
    pub size: usize,
    pub state: Vec<Vec<usize>>,
    pub blank_pos: Pos,
}

impl Puzzle {
    /// The grid as a sequence of rows.
    pub open spec fn grid(self) -> Seq<Seq<usize>> {
        grid_of(self.state@)
    }

    /// The value at column `x`, row `y`.
    pub open spec fn cell(self, x: int, y: int) -> usize {
        self.grid()[y][x]
    }

    /// The grid is a square of edge `size`.
    pub open spec fn shape_ok(self) -> bool {
        &&& self.state@.len() == self.size
        &&& forall|y: int| 0 <= y < self.size ==> #[trigger] self.grid()[y].len() == self.size
    }

    /// Every cell value lies in [0, size²).
    pub open spec fn in_range(self) -> bool {
        forall|x: int, y: int|
            0 <= x < self.size && 0 <= y < self.size ==> #[trigger] self.cell(x, y) < self.size
                * self.size
    }

    /// No two cells hold the same value.
    pub open spec fn distinct(self) -> bool {
        forall|x1: int, y1: int, x2: int, y2: int|
            0 <= x1 < self.size && 0 <= y1 < self.size && 0 <= x2 < self.size && 0 <= y2
                < self.size && (x1 != x2 || y1 != y2) ==> #[trigger] self.cell(x1, y1)
                != #[trigger] self.cell(x2, y2)
    }

    /// The cached blank coordinate points at the unique zero cell.
    pub open spec fn blank_ok(self) -> bool {
        &&& self.blank_pos.x < self.size
        &&& self.blank_pos.y < self.size
        &&& self.cell(self.blank_pos.x as int, self.blank_pos.y as int) == 0
    }

    /// The board invariant: a square grid over [0, size²) with each value
    /// appearing at most once and the blank cache consistent.  Together with
    /// the cell count this makes the grid a permutation of [0, size²).
    pub open spec fn wf(self) -> bool {
        &&& 1 <= self.size <= MAX_SIZE
        &&& self.shape_ok()
        &&& self.in_range()
        &&& self.distinct()
        &&& self.blank_ok()
    }

    /// The mathematical value of this puzzle.
    pub open spec fn model(self) -> Board {
        Board {
            n: self.size as int,
            grid: self.grid(),
            bx: self.blank_pos.x as int,
            by: self.blank_pos.y as int,
        }
    }

    pub fn get_size(&self) -> (r: usize)
        ensures
            r == self.size,
    {
        self.size
    }

    pub fn get_blank_pos(&self) -> (r: Pos)
        ensures
            r == self.blank_pos,
    {
        self.blank_pos
    }

    /// The value at the given position, or `OutOfBounds`.
    pub fn get(&self, pos: Pos) -> (r: Result<usize, PuzzleError>)
        requires
            self.shape_ok(),
        ensures
            pos.x < self.size && pos.y < self.size ==> r == Ok::<usize, PuzzleError>(
                self.cell(pos.x as int, pos.y as int),
            ),
            !(pos.x < self.size && pos.y < self.size) ==> r == Err::<usize, PuzzleError>(
                PuzzleError::OutOfBounds,
            ),
    {
        if pos.x >= self.size || pos.y >= self.size {
            return Err(PuzzleError::OutOfBounds);
        }
        proof {
            assert(self.grid()[pos.y as int] == self.state@[pos.y as int]@);
            assert(self.grid()[pos.y as int].len() == self.size);
        }
        Ok(self.state[pos.y][pos.x])
    }

    /// Write `val` at `pos` without any value checking; the blank cache moves
    /// with a written zero.
    pub fn unchecked_set(&mut self, pos: Pos, val: usize) -> (r: Result<(), PuzzleError>)
        requires
            old(self).shape_ok(),
        ensures
            final(self).size == old(self).size,
            final(self).shape_ok(),
            pos.x < old(self).size && pos.y < old(self).size ==> {
                &&& r == Ok::<(), PuzzleError>(())
                &&& final(self).grid() == old(self).grid().update(
                    pos.y as int,
                    old(self).grid()[pos.y as int].update(pos.x as int, val),
                )
                &&& final(self).blank_pos == (if val == 0 {
                    pos
                } else {
                    old(self).blank_pos
                })
            },
            !(pos.x < old(self).size && pos.y < old(self).size) ==> {
                &&& r == Err::<(), PuzzleError>(PuzzleError::OutOfBounds)
                &&& final(self).grid() == old(self).grid()
                &&& final(self).blank_pos == old(self).blank_pos
            },
    {
        if pos.x >= self.size || pos.y >= self.size {
            return Err(PuzzleError::OutOfBounds);
        }
        proof {
            assert(old(self).grid()[pos.y as int] == old(self).state@[pos.y as int]@);
            assert(old(self).grid()[pos.y as int].len() == old(self).size);
        }
        let row: &mut Vec<usize> = &mut self.state[pos.y];
        row.set(pos.x, val);
        if val == 0 {
            self.blank_pos = pos;
        }
        proof {
            assert(self.grid() =~= old(self).grid().update(
                pos.y as int,
                old(self).grid()[pos.y as int].update(pos.x as int, val),
            ));
        }
        Ok(())
    }

    /// True when `val` occurs somewhere in the grid.
    pub open spec fn spec_contains_value(self, val: usize) -> bool {
        exists|x: int, y: int|
            0 <= x < self.size && 0 <= y < self.size && #[trigger] self.cell(x, y) == val
    }

    /// Checked write: the value must be in range and not yet present.
    pub fn set(&mut self, pos: Pos, val: usize) -> (r: Result<(), PuzzleError>)
        requires
            old(self).shape_ok(),
            old(self).size <= MAX_SIZE,
        ensures
            final(self).size == old(self).size,
            final(self).shape_ok(),
            val >= old(self).size * old(self).size ==> {
                &&& r == Err::<(), PuzzleError>(PuzzleError::OutOfBounds)
                &&& final(self).grid() == old(self).grid()
                &&& final(self).blank_pos == old(self).blank_pos
            },
            val < old(self).size * old(self).size && old(self).spec_contains_value(val) ==> {
                &&& r == Err::<(), PuzzleError>(PuzzleError::DuplicateValue)
                &&& final(self).grid() == old(self).grid()
                &&& final(self).blank_pos == old(self).blank_pos
            },
            val < old(self).size * old(self).size && !old(self).spec_contains_value(val) && pos.x
                < old(self).size && pos.y < old(self).size ==> {
                &&& r == Ok::<(), PuzzleError>(())
                &&& final(self).grid() == old(self).grid().update(
                    pos.y as int,
                    old(self).grid()[pos.y as int].update(pos.x as int, val),
                )
                &&& final(self).blank_pos == (if val == 0 {
                    pos
                } else {
                    old(self).blank_pos
                })
            },
            val < old(self).size * old(self).size && !old(self).spec_contains_value(val) && !(pos.x
                < old(self).size && pos.y < old(self).size) ==> {
                &&& r == Err::<(), PuzzleError>(PuzzleError::OutOfBounds)
                &&& final(self).grid() == old(self).grid()
                &&& final(self).blank_pos == old(self).blank_pos
            },
    {
        proof {
            assert((self.size as u64) * (self.size as u64) <= 65025) by (nonlinear_arith)
                requires
                    self.size <= 255,
            ;
        }
        if (val as u64) >= (self.size as u64) * (self.size as u64) {
            return Err(PuzzleError::OutOfBounds);
        }
        let n = self.size;
        let mut y: usize = 0;
        while y < n
            invariant
                self == old(self),
                n == self.size,
                self.shape_ok(),
                val < n * n,
                y <= n,
                forall|x0: int, y0: int|
                    0 <= x0 < n && 0 <= y0 < y ==> #[trigger] self.cell(x0, y0) != val,
            decreases n - y,
        {
            let mut x: usize = 0;
            while x < n
                invariant
                    self == old(self),
                    n == self.size,
                    self.shape_ok(),
                    val < n * n,
                    y < n,
                    x <= n,
                    forall|x0: int, y0: int|
                        0 <= x0 < n && 0 <= y0 < y ==> #[trigger] self.cell(x0, y0) != val,
                    forall|x0: int| 0 <= x0 < x ==> #[trigger] self.cell(x0, y as int) != val,
                decreases n - x,
            {
                proof {
                    assert(self.grid()[y as int] == self.state@[y as int]@);
                    assert(self.grid()[y as int].len() == n);
                }
                if self.state[y][x] == val {
                    proof {
                        assert(old(self).cell(x as int, y as int) == val);
                    }
                    return Err(PuzzleError::DuplicateValue);
                }
                x += 1;
            }
            y += 1;
        }
        self.unchecked_set(pos, val)
    }

    /// Swap the values at the two positions; the blank cache follows a moved
    /// zero.
    pub fn swap(&mut self, pos1: Pos, pos2: Pos) -> (r: Result<(), PuzzleError>)
        requires
            old(self).shape_ok(),
        ensures
            final(self).size == old(self).size,
            final(self).shape_ok(),
            pos1.x < old(self).size && pos1.y < old(self).size && pos2.x < old(self).size && pos2.y
                < old(self).size ==> {
                &&& r == Ok::<(), PuzzleError>(())
                &&& final(self).grid() == {
                    let v1 = old(self).cell(pos1.x as int, pos1.y as int);
                    let v2 = old(self).cell(pos2.x as int, pos2.y as int);
                    let g1 = old(self).grid().update(
                        pos1.y as int,
                        old(self).grid()[pos1.y as int].update(pos1.x as int, v2),
                    );
                    g1.update(pos2.y as int, g1[pos2.y as int].update(pos2.x as int, v1))
                }
                &&& final(self).blank_pos == (if old(self).cell(pos1.x as int, pos1.y as int)
                    == 0 {
                    pos2
                } else if old(self).cell(pos2.x as int, pos2.y as int) == 0 {
                    pos1
                } else {
                    old(self).blank_pos
                })
            },
            !(pos1.x < old(self).size && pos1.y < old(self).size && pos2.x < old(self).size
                && pos2.y < old(self).size) ==> {
                &&& r == Err::<(), PuzzleError>(PuzzleError::OutOfBounds)
                &&& final(self).grid() == old(self).grid()
                &&& final(self).blank_pos == old(self).blank_pos
            },
    {
        if pos1.x >= self.size || pos1.y >= self.size || pos2.x >= self.size || pos2.y
            >= self.size {
            return Err(PuzzleError::OutOfBounds);
        }
        proof {
            assert(self.grid()[pos1.y as int] == self.state@[pos1.y as int]@);
            assert(self.grid()[pos1.y as int].len() == self.size);
            assert(self.grid()[pos2.y as int] == self.state@[pos2.y as int]@);
            assert(self.grid()[pos2.y as int].len() == self.size);
        }
        let val1 = self.state[pos1.y][pos1.x];
        let val2 = self.state[pos2.y][pos2.x];
        let row1: &mut Vec<usize> = &mut self.state[pos1.y];
        row1.set(pos1.x, val2);
        proof {
            assert(self.grid()[pos2.y as int] == self.state@[pos2.y as int]@);
            assert(self.grid() =~= old(self).grid().update(
                pos1.y as int,
                old(self).grid()[pos1.y as int].update(pos1.x as int, val2),
            ));
        }
        let row2: &mut Vec<usize> = &mut self.state[pos2.y];
        row2.set(pos2.x, val1);
        if val1 == 0 {
            self.blank_pos = pos2;
        } else if val2 == 0 {
            self.blank_pos = pos1;
        }
        proof {
            let v1 = old(self).cell(pos1.x as int, pos1.y as int);
            let v2 = old(self).cell(pos2.x as int, pos2.y as int);
            let g1 = old(self).grid().update(
                pos1.y as int,
                old(self).grid()[pos1.y as int].update(pos1.x as int, v2),
            );
            assert(self.grid() =~= g1.update(
                pos2.y as int,
                g1[pos2.y as int].update(pos2.x as int, v1),
            ));
        }
        Ok(())
    }

    /// Slide the blank one cell in direction `mv`; on a border the board is
    /// unchanged and `IllegalMove` is returned.
    pub fn move_blank(&mut self, mv: Move) -> (r: Result<(), PuzzleError>)
        requires
            old(self).wf(),
        ensures
            final(self).size == old(self).size,
            final(self).wf(),
            old(self).model().legal(mv) ==> {
                &&& r == Ok::<(), PuzzleError>(())
                &&& final(self).model() == old(self).model().do_move(mv)
            },
            !old(self).model().legal(mv) ==> {
                &&& r == Err::<(), PuzzleError>(PuzzleError::IllegalMove)
                &&& *final(self) == *old(self)
            },
    {
        let pos = self.blank_pos;
        let dest: Pos = match mv {
            Move::Up => {
                if pos.y == 0 {
                    return Err(PuzzleError::IllegalMove);
                }
                Pos { x: pos.x, y: pos.y - 1 }
            },
            Move::Down => {
                if pos.y >= self.size - 1 {
                    return Err(PuzzleError::IllegalMove);
                }
                Pos { x: pos.x, y: pos.y + 1 }
            },
            Move::Left => {
                if pos.x == 0 {
                    return Err(PuzzleError::IllegalMove);
                }
                Pos { x: pos.x - 1, y: pos.y }
            },
            Move::Right => {
                if pos.x >= self.size - 1 {
                    return Err(PuzzleError::IllegalMove);
                }
                Pos { x: pos.x + 1, y: pos.y }
            },
        };
        let res = self.swap(pos, dest);
        proof {
            let pre = old(self).model();
            let post = self.model();
            let (dx, dy) = pre.dest(mv);
            assert(dx == dest.x as int && dy == dest.y as int);
            assert(old(self).cell(pos.x as int, pos.y as int) == 0);
            // The destination tile is not the blank, so the blank cache moved
            // to the destination.
            assert(res == Ok::<(), PuzzleError>(()));
            assert(post.grid =~= pre.do_move(mv).grid);
            assert(post == pre.do_move(mv));
            lemma_move_preserves_wf(*old(self), *self, mv, dest);
        }
        Ok(())
    }
}

impl Puzzle {
    /// A value `v` occurs in a row strictly before `y`, or in row `y` strictly
    /// before column `x`.
    pub open spec fn appears_prior(self, v: usize, x: int, y: int) -> bool {
        exists|x0: int, y0: int|
            0 <= x0 < self.size && 0 <= y0 < self.size && (y0 < y || (y0 == y && x0 < x))
                && #[trigger] self.cell(x0, y0) == v
    }

    /// Validate the board invariant: square shape, all values in range and
    /// pairwise distinct, and the blank cache pointing at a zero cell.
    pub fn check_state(&self) -> (r: bool)
        requires
            self.size <= MAX_SIZE,
        ensures
            r == self.wf(),
    {
        let n = self.size;
        proof {
            assert((n as u64) * (n as u64) <= 65025) by (nonlinear_arith)
                requires
                    n <= 255,
            ;
        }
        let nn: usize = n * n;
        let mut seen: Vec<bool> = vec![false; nn];
        if self.state.len() != n {
            return false;
        }
        let mut y: usize = 0;
        while y < n
            invariant
                n == self.size,
                n <= MAX_SIZE,
                nn == n * n,
                self.state@.len() == n,
                y <= n,
                seen@.len() == nn,
                forall|y0: int| 0 <= y0 < y ==> #[trigger] self.grid()[y0].len() == n,
                forall|v: int|
                    0 <= v < nn ==> (#[trigger] seen@[v] <==> self.appears_prior(v as usize, 0, y as int)),
                forall|x1: int, y1: int, x2: int, y2: int|
                    0 <= x1 < n && 0 <= y1 < y && 0 <= x2 < n && 0 <= y2 < y && (x1 != x2 || y1
                        != y2) ==> #[trigger] self.cell(x1, y1) != #[trigger] self.cell(x2, y2),
                forall|x0: int, y0: int|
                    0 <= x0 < n && 0 <= y0 < y ==> #[trigger] self.cell(x0, y0) < nn,
            decreases n - y,
        {
            if self.state[y].len() != n {
                proof {
                    assert(self.grid()[y as int] == self.state@[y as int]@);
                }
                return false;
            }
            proof {
                assert(self.grid()[y as int] == self.state@[y as int]@);
            }
            let mut x: usize = 0;
            while x < n
                invariant
                    n == self.size,
                    n <= MAX_SIZE,
                    nn == n * n,
                    self.state@.len() == n,
                    y < n,
                    x <= n,
                    seen@.len() == nn,
                    self.grid()[y as int].len() == n,
                    forall|y0: int| 0 <= y0 < y ==> #[trigger] self.grid()[y0].len() == n,
                    forall|v: int|
                        0 <= v < nn ==> (#[trigger] seen@[v] <==> self.appears_prior(
                            v as usize,
                            x as int,
                            y as int,
                        )),
                    forall|x1: int, y1: int, x2: int, y2: int|
                        0 <= x1 < n && 0 <= y1 < n && 0 <= x2 < n && 0 <= y2 < n && (y1 < y || (y1
                            == y && x1 < x)) && (y2 < y || (y2 == y && x2 < x)) && (x1 != x2 || y1
                            != y2) ==> #[trigger] self.cell(x1, y1) != #[trigger] self.cell(
                            x2,
                            y2,
                        ),
                    forall|x0: int, y0: int|
                        0 <= x0 < n && 0 <= y0 < n && (y0 < y || (y0 == y && x0 < x))
                            ==> #[trigger] self.cell(x0, y0) < nn,
                decreases n - x,
            {
                let val = self.state[y][x];
                proof {
                    assert(self.cell(x as int, y as int) == val);
                }
                if val >= nn {
                    return false;
                }
                if seen[val] {
                    proof {
                        let (x0, y0) = choose|x0: int, y0: int|
                            0 <= x0 < self.size && 0 <= y0 < self.size && (y0 < y || (y0 == y && x0
                                < x)) && #[trigger] self.cell(x0, y0) == val;
                        assert(self.cell(x0, y0) == self.cell(x as int, y as int));
                        assert(!self.distinct());
                    }
                    return false;
                }
                let ghost seen_pre = seen@;
                seen.set(val, true);
                proof {
                    assert forall|v: int| 0 <= v < nn implies (#[trigger] seen@[v]
                        <==> self.appears_prior(v as usize, x as int + 1, y as int)) by {
                        if v == val {
                            assert(self.cell(x as int, y as int) == v);
                            assert(self.appears_prior(v as usize, x as int + 1, y as int));
                        } else {
                            assert(seen@[v] == seen_pre[v]);
                            if self.appears_prior(v as usize, x as int + 1, y as int) {
                                let (x0, y0) = choose|x0: int, y0: int|
                                    0 <= x0 < self.size && 0 <= y0 < self.size && (y0 < y || (y0
                                        == y && x0 < x + 1)) && #[trigger] self.cell(x0, y0)
                                        == v;
                                if y0 == y && x0 == x {
                                    assert(false);
                                } else {
                                    assert(self.appears_prior(v as usize, x as int, y as int));
                                }
                            }
                            if self.appears_prior(v as usize, x as int, y as int) {
                                assert(self.appears_prior(v as usize, x as int + 1, y as int));
                            }
                        }
                    }
                }
                x += 1;
            }
            proof {
                assert forall|v: int| 0 <= v < nn implies (#[trigger] seen@[v]
                    <==> self.appears_prior(v as usize, 0, y as int + 1)) by {
                    if self.appears_prior(v as usize, 0, y as int + 1) {
                        assert(self.appears_prior(v as usize, n as int, y as int));
                    }
                    if self.appears_prior(v as usize, n as int, y as int) {
                        assert(self.appears_prior(v as usize, 0, y as int + 1));
                    }
                }
            }
            y += 1;
        }
        let val = match self.get(self.blank_pos) {
            Ok(val) => val,
            Err(_) => {
                return false;
            },
        };
        if val != 0 {
            return false;
        }
        proof {
            assert(self.blank_ok());
            assert(1 <= self.size);
            assert(self.shape_ok());
            assert(self.in_range());
            assert(self.distinct());
        }
        true
    }

    /// Build a board from explicit rows; the blank cache is set to the first
    /// zero cell in row-major order.  Fails with `MalformedBoard` when the
    /// rows do not form a valid board.
    pub fn new_from_state(state: Vec<Vec<usize>>) -> (r: Result<Puzzle, PuzzleError>)
        ensures
            match r {
                Ok(p) => {
                    &&& p.wf()
                    &&& p.size == state@.len()
                    &&& p.grid() == grid_of(state@)
                },
                Err(e) => e == PuzzleError::MalformedBoard,
            },
            r.is_ok() <==> rows_form_valid_board(grid_of(state@)),
    {
        let size = state.len();
        if size > MAX_SIZE {
            return Err(PuzzleError::MalformedBoard);
        }
        let mut blank_pos = Pos::new(0, 0);
        let mut found = false;
        let mut y: usize = 0;
        while y < size
            invariant
                size == state@.len(),
                y <= size,
                found ==> blank_pos.y < y && blank_pos.x < state@[blank_pos.y as int]@.len()
                    && state@[blank_pos.y as int]@[blank_pos.x as int] == 0,
                !found ==> forall|x0: int, y0: int|
                    0 <= y0 < y && 0 <= x0 < state@[y0]@.len() ==> #[trigger] state@[y0]@[x0] != 0,
            decreases size - y,
        {
            if !found {
                let row_len = state[y].len();
                let mut x: usize = 0;
                while x < row_len
                    invariant
                        size == state@.len(),
                        y < size,
                        row_len == state@[y as int]@.len(),
                        x <= row_len,
                        found ==> blank_pos.y == y && blank_pos.x < row_len
                            && state@[y as int]@[blank_pos.x as int] == 0,
                        !found ==> forall|x0: int| 0 <= x0 < x ==> #[trigger] state@[y as int]@[x0]
                            != 0,
                        forall|x0: int, y0: int|
                            0 <= y0 < y && 0 <= x0 < state@[y0]@.len() ==> #[trigger] state@[y0]@[x0]
                                != 0,
                    decreases row_len - x,
                {
                    if !found && state[y][x] == 0 {
                        blank_pos = Pos::new(x, y);
                        found = true;
                    }
                    x += 1;
                }
            }
            y += 1;
        }
        let ghost rows = state@;
        let puzzle = Puzzle { size, state, blank_pos };
        if !puzzle.check_state() {
            proof {
                let g = puzzle.grid();
                let n = size as int;
                assert(g == grid_of(rows));
                if rows_form_valid_board(g) {
                    if !found {
                        let (zx, zy) = choose|zx: int, zy: int|
                            0 <= zx < n && 0 <= zy < n && #[trigger] g[zy][zx] == 0;
                        assert(rows[zy]@[zx] == 0);
                        assert(false);
                    }
                    assert(g[blank_pos.y as int].len() == n);
                    assert(puzzle.blank_ok());
                    assert(1 <= puzzle.size);
                    assert(puzzle.wf());
                    assert(false);
                }
            }
            return Err(PuzzleError::MalformedBoard);
        }
        proof {
            let g = puzzle.grid();
            let n = puzzle.size as int;
            assert forall|x: int, y: int| 0 <= x < n && 0 <= y < n implies #[trigger] g[y][x] < n
                * n by {
                assert(puzzle.cell(x, y) < n * n);
            }
            assert forall|x1: int, y1: int, x2: int, y2: int|
                0 <= x1 < n && 0 <= y1 < n && 0 <= x2 < n && 0 <= y2 < n && (x1 != x2 || y1
                    != y2) implies #[trigger] g[y1][x1] != #[trigger] g[y2][x2] by {
                assert(puzzle.cell(x1, y1) != puzzle.cell(x2, y2));
            }
            let bx = puzzle.blank_pos.x as int;
            let by = puzzle.blank_pos.y as int;
            assert(g[by][bx] == 0);
            assert(rows_form_valid_board(g));
        }
        Ok(puzzle)
    }
}

/// Element-wise equality of two rows.
fn rows_eq(a: &Vec<usize>, b: &Vec<usize>) -> (r: bool)
    ensures
        r == (a@ == b@),
{
    if a.len() != b.len() {
        return false;
    }
    let mut i: usize = 0;
    while i < a.len()
        invariant
            a@.len() == b@.len(),
            i <= a@.len(),
            forall|j: int| 0 <= j < i ==> a@[j] == b@[j],
        decreases a@.len() - i,
    {
        if a[i] != b[i] {
            return false;
        }
        i += 1;
    }
    proof {
        assert(a@ =~= b@);
    }
    true
}

/// Element-wise equality of two grids.
pub fn grids_eq(a: &Vec<Vec<usize>>, b: &Vec<Vec<usize>>) -> (r: bool)
    ensures
        r == (grid_of(a@) == grid_of(b@)),
{
    if a.len() != b.len() {
        proof {
            assert(grid_of(a@).len() != grid_of(b@).len());
        }
        return false;
    }
    let mut y: usize = 0;
    while y < a.len()
        invariant
            a@.len() == b@.len(),
            y <= a@.len(),
            forall|y0: int| 0 <= y0 < y ==> #[trigger] a@[y0]@ == b@[y0]@,
        decreases a@.len() - y,
    {
        if !rows_eq(&a[y], &b[y]) {
            proof {
                assert(grid_of(a@)[y as int] != grid_of(b@)[y as int]);
            }
            return false;
        }
        y += 1;
    }
    proof {
        assert(grid_of(a@) =~= grid_of(b@));
    }
    true
}

impl Clone for Puzzle {
    /// A deep copy with the same grid, size and blank cache.
    fn clone(&self) -> (res: Puzzle)
        ensures
            res.size == self.size,
            res.blank_pos == self.blank_pos,
            res.grid() == self.grid(),
            res.state@.len() == self.state@.len(),
    {
        let mut state: Vec<Vec<usize>> = Vec::new();
        let mut y: usize = 0;
        while y < self.state.len()
            invariant
                y <= self.state@.len(),
                state@.len() == y,
                forall|y0: int| 0 <= y0 < y ==> #[trigger] state@[y0]@ == self.state@[y0]@,
            decreases self.state@.len() - y,
        {
            let src = &self.state[y];
            let mut row: Vec<usize> = Vec::new();
            let mut x: usize = 0;
            while x < src.len()
                invariant
                    x <= src@.len(),
                    row@.len() == x,
                    forall|x0: int| 0 <= x0 < x ==> row@[x0] == src@[x0],
                decreases src@.len() - x,
            {
                row.push(src[x]);
                x += 1;
            }
            proof {
                assert(row@ =~= src@);
            }
            state.push(row);
            y += 1;
        }
        let res = Puzzle { size: self.size, state, blank_pos: self.blank_pos };
        proof {
            assert(res.grid() =~= self.grid());
        }
        res
    }
}

impl PartialEq for Puzzle {
    /// Structural equality over size, grid and blank cache, as a value
    /// comparison of the three fields.
    fn eq(&self, other: &Puzzle) -> (r: bool) {
        if self.size != other.size {
            return false;
        }
        if self.blank_pos.x != other.blank_pos.x || self.blank_pos.y != other.blank_pos.y {
            return false;
        }
        if self.state.len() != other.state.len() {
            proof {
                assert(self.grid().len() != other.grid().len());
            }
            return false;
        }
        let mut y: usize = 0;
        while y < self.state.len()
            invariant
                self.state@.len() == other.state@.len(),
                y <= self.state@.len(),
                forall|y0: int| 0 <= y0 < y ==> #[trigger] self.state@[y0]@ == other.state@[y0]@,
            decreases self.state@.len() - y,
        {
            if !rows_eq(&self.state[y], &other.state[y]) {
                proof {
                    assert(self.grid()[y as int] != other.grid()[y as int]);
                }
                return false;
            }
            y += 1;
        }
        proof {
            assert(self.grid() =~= other.grid());
        }
        true
    }
}

impl vstd::std_specs::cmp::PartialEqSpecImpl for Puzzle {
    open spec fn obeys_eq_spec() -> bool {
        true
    }

    open spec fn eq_spec(&self, other: &Puzzle) -> bool {
        &&& self.size == other.size
        &&& self.blank_pos == other.blank_pos
        &&& self.grid() == other.grid()
    }
}

/// Well-formedness carries over to any board with the same size, grid and
/// blank cache.
pub proof fn lemma_wf_same_fields(a: Puzzle, b: Puzzle)
    requires
        a.wf(),
        b.size == a.size,
        b.blank_pos == a.blank_pos,
        b.grid() == a.grid(),
    ensures
        b.wf(),
{
    assert(b.state@.len() == b.grid().len());
    assert(b.shape_ok());
    assert forall|x: int, y: int| 0 <= x < b.size && 0 <= y < b.size implies #[trigger] b.cell(
        x,
        y,
    ) < b.size * b.size by {
        assert(b.cell(x, y) == a.cell(x, y));
    }
    assert forall|x1: int, y1: int, x2: int, y2: int|
        0 <= x1 < b.size && 0 <= y1 < b.size && 0 <= x2 < b.size && 0 <= y2 < b.size && (x1 != x2
            || y1 != y2) implies #[trigger] b.cell(x1, y1) != #[trigger] b.cell(x2, y2) by {
        assert(b.cell(x1, y1) == a.cell(x1, y1));
        assert(b.cell(x2, y2) == a.cell(x2, y2));
    }
    assert(b.cell(b.blank_pos.x as int, b.blank_pos.y as int) == a.cell(
        a.blank_pos.x as int,
        a.blank_pos.y as int,
    ));
}

/// A legal blank move keeps the board invariant: the swap merely permutes two
/// cell values and the blank cache follows the zero.
proof fn lemma_move_preserves_wf(pre: Puzzle, post: Puzzle, mv: Move, dest: Pos)
    requires
        pre.wf(),
        pre.model().legal(mv),
        post.size == pre.size,
        dest.x as int == pre.model().dest(mv).0,
        dest.y as int == pre.model().dest(mv).1,
        post.model() == pre.model().do_move(mv),
        post.blank_pos == dest,
        post.shape_ok(),
    ensures
        post.wf(),
{
    let n = pre.size as int;
    let bx = pre.blank_pos.x as int;
    let by = pre.blank_pos.y as int;
    let dx = dest.x as int;
    let dy = dest.y as int;
    let v = pre.cell(dx, dy);
    assert(0 <= dx < n && 0 <= dy < n);
    assert forall|x: int, y: int| 0 <= x < n && 0 <= y < n implies #[trigger] post.cell(x, y) == (
    if x == bx && y == by {
        v
    } else if x == dx && y == dy {
        0usize
    } else {
        pre.cell(x, y)
    }) by {
        assert(pre.grid()[y].len() == n);
        assert(pre.grid()[by].len() == n);
        assert(pre.grid()[dy].len() == n);
    }
    assert(post.in_range()) by {
        assert(forall|x: int, y: int|
            0 <= x < n && 0 <= y < n ==> #[trigger] post.cell(x, y) == v || post.cell(x, y) == 0
                || post.cell(x, y) == pre.cell(x, y));
    }
    assert(post.distinct()) by {
        assert forall|x1: int, y1: int, x2: int, y2: int|
            0 <= x1 < n && 0 <= y1 < n && 0 <= x2 < n && 0 <= y2 < n && (x1 != x2 || y1
                != y2) implies #[trigger] post.cell(x1, y1) != #[trigger] post.cell(x2, y2) by {
            assert(pre.cell(bx, by) == 0);
            assert((bx != dx || by != dy));
        }
    }
    assert(post.blank_ok()) by {
        assert(post.cell(dx, dy) == 0);
    }
}

} // verus!
