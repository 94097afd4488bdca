use vstd::prelude::*;
use vstd::seq_lib::group_to_multiset_ensures;

use rand::seq::SliceRandom;

use crate::board::{Puzzle, MAX_SIZE};
use crate::errors::PuzzleError;
use crate::pos::Pos;
use crate::solvable::solvable_spec;

verus! {

broadcast use group_to_multiset_ensures;

#[verifier::external_type_specification]
#[verifier::external_body]
pub struct ExThreadRng(rand::rngs::ThreadRng);

/// Relies on rand::thread_rng: a handle to the thread-local generator;
/// nothing is promised of the numbers it will yield.
#[verifier::external_body]
fn fresh_rng() -> rand::rngs::ThreadRng {
    rand::thread_rng()
}

/// Relies on rand's SliceRandom::shuffle: it permutes the slice in place, so
/// the values kept are exactly the values given, in an order nothing is
/// promised about.
#[verifier::external_body]
fn shuffle_values(values: &mut Vec<usize>, rng: &mut rand::rngs::ThreadRng)
    ensures
        final(values)@.to_multiset() == old(values)@.to_multiset(),
{
    values.shuffle(rng);
}

/// In a sequence whose every value occurs at most once in multiset terms,
/// distinct positions hold distinct values.
proof fn lemma_unit_count_distinct(s: Seq<usize>, i: int, j: int)
    requires
        0 <= i < s.len(),
        0 <= j < s.len(),
        i != j,
        s.to_multiset().count(s[i]) <= 1,
    ensures
        s[i] != s[j],
{
    if s[i] == s[j] {
        let t = s.remove(i);
        assert(t.to_multiset() =~= s.to_multiset().remove(s[i]));
        let j2 = if j < i {
            j
        } else {
            j - 1
        };
        assert(t[j2] == s[j]);
        assert(t.contains(s[j]));
        assert(t.to_multiset().count(s[j]) >= 1);
        assert(s.to_multiset().count(s[i]) >= 2);
    }
}

impl Puzzle {
    /// A uniformly random arrangement of the values 0…size²−1 on a
    /// size×size board.
    pub fn generate(size: usize) -> (r: Result<Puzzle, PuzzleError>)
        ensures
            r.is_ok() <==> 2 <= size <= MAX_SIZE,
            match r {
                Ok(p) => p.wf() && p.size == size,
                Err(e) => e == PuzzleError::InvalidOption,
            },
    {
        if size <= 1 || size > MAX_SIZE {
            return Err(PuzzleError::InvalidOption);
        }
        proof {
            assert(size * size <= 65025) by (nonlinear_arith)
                requires
                    size <= 255,
            ;
        }
        let n = size;
        let nn = n * n;
        let mut rand_state: Vec<usize> = Vec::new();
        let mut i: usize = 0;
        while i < nn
            invariant
                i <= nn,
                rand_state@.len() == i,
                forall|k: int| 0 <= k < i ==> #[trigger] rand_state@[k] == k,
            decreases nn - i,
        {
            rand_state.push(i);
            i += 1;
        }
        let ghost ordered = rand_state@;
        proof {
            assert(ordered.no_duplicates());
            ordered.lemma_multiset_has_no_duplicates();
            assert forall|v: usize| #[trigger]
                ordered.to_multiset().count(v) <= 1 && (ordered.to_multiset().count(v) == 1 <==> (
            v as int) < nn) by {
                if (v as int) < nn {
                    assert(ordered[v as int] == v);
                    assert(ordered.contains(v));
                    assert(ordered.to_multiset().count(v) > 0);
                }
                if ordered.to_multiset().count(v) > 0 {
                    assert(ordered.contains(v));
                }
            }
        }
        let mut rng = fresh_rng();
        shuffle_values(&mut rand_state, &mut rng);
        let ghost s = rand_state@;
        proof {
            assert(s.len() == nn) by {
                assert(s.to_multiset().len() == ordered.to_multiset().len());
            }
            assert forall|v: usize| #[trigger]
                s.to_multiset().count(v) <= 1 && (s.to_multiset().count(v) == 1 <==> (v as int)
                < nn) by {
                assert(s.to_multiset().count(v) == ordered.to_multiset().count(v));
            }
        }
        let mut state: Vec<Vec<usize>> = Vec::new();
        let mut blank_pos = Pos::new(0, 0);
        let mut found = false;
        let mut y: usize = 0;
        while y < n
            invariant
                2 <= n <= MAX_SIZE,
                nn == n * n,
                s == rand_state@,
                rand_state@.len() == nn,
                y <= n,
                state@.len() == y,
                forall|y0: int|
                    0 <= y0 < y ==> (#[trigger] state@[y0]@).len() == n && forall|x0: int|
                        0 <= x0 < n ==> state@[y0]@[x0] == s[y0 * n + x0],
                found ==> blank_pos.x < n && blank_pos.y < y && s[blank_pos.y as int * n
                    + blank_pos.x as int] == 0,
                !found ==> forall|k: int| 0 <= k < y * n ==> #[trigger] s[k] != 0,
            decreases n - y,
        {
            let mut row: Vec<usize> = Vec::new();
            let mut x: usize = 0;
            while x < n
                invariant
                    2 <= n <= MAX_SIZE,
                    nn == n * n,
                    s == rand_state@,
                    rand_state@.len() == nn,
                    y < n,
                    x <= n,
                    row@.len() == x,
                    forall|x0: int| 0 <= x0 < x ==> row@[x0] == s[y * n + x0],
                    found ==> blank_pos.x < n && blank_pos.y <= y && s[blank_pos.y as int * n
                        + blank_pos.x as int] == 0,
                    !found ==> forall|k: int| 0 <= k < y * n + x ==> #[trigger] s[k] != 0,
                decreases n - x,
            {
                proof {
                    assert(y * n + x < n * n) by (nonlinear_arith)
                        requires
                            0 <= x < n,
                            0 <= y < n,
                    ;
                }
                let idx = y * n + x;
                let val = rand_state[idx];
                if val == 0 {
                    blank_pos = Pos::new(x, y);
                    found = true;
                }
                row.push(val);
                x += 1;
            }
            state.push(row);
            proof {
                assert((y as int + 1) * n == y as int * n + n) by (nonlinear_arith);
            }
            y += 1;
        }
        let puzzle = Puzzle { size: n, state, blank_pos };
        proof {
            let g = puzzle.grid();
            assert forall|x0: int, y0: int| 0 <= x0 < n && 0 <= y0 < n implies #[trigger] puzzle
                .cell(x0, y0) == s[y0 * n + x0] by {}
            assert forall|x0: int, y0: int|
                0 <= x0 < n && 0 <= y0 < n implies #[trigger] puzzle.cell(x0, y0) < n * n by {
                assert(0 <= y0 * n + x0 < n * n) by (nonlinear_arith)
                    requires
                        0 <= x0 < n,
                        0 <= y0 < n,
                ;
                let v = s[y0 * n + x0];
                assert(s.contains(v));
                assert(s.to_multiset().count(v) > 0);
            }
            assert forall|x1: int, y1: int, x2: int, y2: int|
                0 <= x1 < n && 0 <= y1 < n && 0 <= x2 < n && 0 <= y2 < n && (x1 != x2 || y1
                    != y2) implies #[trigger] puzzle.cell(x1, y1) != #[trigger] puzzle.cell(
                x2,
                y2,
            ) by {
                let k1 = y1 * n + x1;
                let k2 = y2 * n + x2;
                assert(0 <= k1 < n * n && 0 <= k2 < n * n && k1 != k2) by (nonlinear_arith)
                    requires
                        0 <= x1 < n,
                        0 <= y1 < n,
                        0 <= x2 < n,
                        0 <= y2 < n,
                        x1 != x2 || y1 != y2,
                        k1 == y1 * n + x1,
                        k2 == y2 * n + x2,
                ;
                lemma_unit_count_distinct(s, k1, k2);
            }
            // The value 0 occurs somewhere, so the scan found it.
            assert(4 <= nn) by (nonlinear_arith)
                requires
                    nn == n * n,
                    2 <= n,
            ;
            assert(s.to_multiset().count(0usize) == 1);
            assert(s.contains(0usize));
            let z = choose|z: int| 0 <= z < s.len() && s[z] == 0usize;
            if !found {
                assert(s[z] != 0);
                assert(false);
            }
            assert(puzzle.blank_ok());
            assert(puzzle.wf());
        }
        Ok(puzzle)
    }

    /// Generate random boards until one is solvable.
    pub fn generate_solvable(size: usize) -> (r: Result<Puzzle, PuzzleError>)
        ensures
            match r {
                Ok(p) => p.wf() && p.size == size && solvable_spec(p),
                Err(e) => e == PuzzleError::InvalidOption || e == PuzzleError::NoSolution,
            },
            r == Err::<Puzzle, PuzzleError>(PuzzleError::InvalidOption) <==> !(2 <= size
                <= MAX_SIZE),
    {
        if size <= 1 || size > MAX_SIZE {
            return Err(PuzzleError::InvalidOption);
        }
        let mut fuel: u64 = u64::MAX;
        while fuel > 0
            invariant
                2 <= size <= MAX_SIZE,
            decreases fuel,
        {
            fuel = fuel - 1;
            let puzzle = match Puzzle::generate(size) {
                Ok(p) => p,
                Err(e) => {
                    return Err(e);
                },
            };
            let solvable = match puzzle.is_solvable() {
                Ok(b) => b,
                Err(e) => {
                    return Err(e);
                },
            };
            if solvable {
                return Ok(puzzle);
            }
        }
        Err(PuzzleError::NoSolution)
    }
}

} // verus!
