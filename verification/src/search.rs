use vstd::multiset::Multiset;
use vstd::prelude::*;

use crate::admissible::{board_wf, lemma_do_move_cells, lemma_model_wf};
use crate::board::{lemma_apply_path_push, lemma_apply_path_split, solves, Board, Puzzle};
use crate::closed_set::{board_key, ClosedSet};
use crate::errors::PuzzleError;
use crate::heuristic::Heuristic;
use crate::moves::Move;
use crate::open_set::{OpenSet, OpenSetNode};
use crate::output::Output;

verus! {

broadcast use vstd::multiset::group_multiset_axioms;

/// The number of expansion steps after which an unbounded search gives up
/// and reports an expired budget.
pub const NODE_BUDGET: u64 = u64::MAX;

/// The search variants sharing one expansion skeleton.
#[derive(Debug, Clone, Copy, PartialEq, Eq, Structural)]
pub enum Algorithm {
    AStar,
    UniformCost,
    Greedy,
}

impl Algorithm {
    /// Whether the variant consumes a user-selected heuristic.
    pub fn is_heuristic(&self) -> (r: bool)
        ensures
            r == (*self != Algorithm::UniformCost),
    {
        if let Algorithm::UniformCost = self {
            return false;
        }
        true
    }
}

#[verifier::external_type_specification]
#[verifier::external_body]
pub struct ExInstant(std::time::Instant);

/// Relies on std::time::Instant::now: an opaque reading of the monotonic
/// clock; nothing is promised of its value.
#[verifier::external_body]
fn instant_now() -> std::time::Instant {
    std::time::Instant::now()
}

/// Relies on std::time::Instant::elapsed: the time since the reading was
/// taken; nothing is promised of its value.
#[verifier::external_body]
fn instant_elapsed(start: &std::time::Instant) -> std::time::Duration {
    start.elapsed()
}

/// Relies on std::time::Duration::as_micros: the duration expressed in whole
/// microseconds.
#[verifier::external_body]
fn duration_as_micros(d: &std::time::Duration) -> u128 {
    d.as_micros()
}

/// The elapsed microseconds since `start`, clamped into `u64`.
fn elapsed_micros(start: &std::time::Instant) -> u64 {
    let d = instant_elapsed(start);
    let us = duration_as_micros(&d);
    if us > u64::MAX as u128 {
        u64::MAX
    } else {
        us as u64
    }
}

/// A copy of a move list.
fn copy_moves(v: &Vec<Move>) -> (r: Vec<Move>)
    ensures
        r@ == v@,
{
    let mut r: Vec<Move> = Vec::new();
    let mut i: usize = 0;
    while i < v.len()
        invariant
            i <= v@.len(),
            r@.len() == i,
            forall|j: int| 0 <= j < i ==> r@[j] == v@[j],
        decreases v@.len() - i,
    {
        r.push(v[i]);
        i += 1;
    }
    proof {
        assert(r@ =~= v@);
    }
    r
}

/// Addition of two lengths, clamped at `usize::MAX`.
fn sat_add_usize(a: usize, b: usize) -> (r: usize)
    ensures
        r as int == crate::open_set::sat_add(a as int, b as int),
{
    if a <= usize::MAX - b {
        a + b
    } else {
        usize::MAX
    }
}

/// The invariant every frontier node keeps: a well-formed board of the
/// start's size whose recorded path leads from the start exactly to it.
spec fn node_ok(start: Board, size: usize, nd: OpenSetNode) -> bool {
    &&& nd.spec_state().wf()
    &&& nd.spec_state().size == size
    &&& start.apply_path(nd.spec_path()) == Some(nd.spec_state().model())
    &&& nd.spec_moved_cost() == nd.spec_path().len()
}

/// Some frontier node stands for the board `b`.
spec fn open_has_board(open: OpenSet, b: Board) -> bool {
    exists|nd: OpenSetNode| open.contents().contains(nd) && nd.spec_state().model() == b
}

/// Position `j` of the solution `q` ends on a board the frontier covers.
spec fn covered_at(open: OpenSet, start: Board, q: Seq<Move>, j: int) -> bool {
    &&& 0 <= j <= q.len()
    &&& start.apply_path(q.take(j)) is Some
    &&& open_has_board(open, start.apply_path(q.take(j))->Some_0)
}

/// The board a closed-set entry stands for.
spec fn key_board(k: (int, Seq<Seq<usize>>, crate::pos::Pos)) -> Board {
    Board { n: k.0, grid: k.1, bx: k.2.x as int, by: k.2.y as int }
}

/// The closed-set entry of a board.
spec fn board_to_key(b: Board) -> (int, Seq<Seq<usize>>, crate::pos::Pos) {
    (b.n, b.grid, crate::pos::Pos { x: b.bx as usize, y: b.by as usize })
}

/// The invariant of the expanded set: every recorded board is well formed,
/// of the start's size, not the goal, and each of its legal successors is
/// recorded too or stands in the frontier.
spec fn closed_ok(closed: ClosedSet, open: OpenSet, size: usize) -> bool {
    forall|k: (int, Seq<Seq<usize>>, crate::pos::Pos)| #[trigger]
        closed.contents().contains(k) ==> {
            let b = key_board(k);
            &&& board_wf(b)
            &&& b.n == size
            &&& b.grid != crate::spiral::goal_grid(size as int)
            &&& forall|mv: Move|
                b.legal(mv) ==> (closed.contents().contains(board_to_key(
                    #[trigger] b.do_move(mv),
                )) || open_has_board(open, b.do_move(mv)))
        }
}

/// The expanded-set invariant weakened for the middle of one expansion
/// step: a successor may also be the board being expanded right now.
spec fn closed_ok_except(closed: ClosedSet, open: OpenSet, size: usize, x: Board) -> bool {
    forall|k: (int, Seq<Seq<usize>>, crate::pos::Pos)| #[trigger]
        closed.contents().contains(k) ==> {
            let b = key_board(k);
            &&& board_wf(b)
            &&& b.n == size
            &&& b.grid != crate::spiral::goal_grid(size as int)
            &&& forall|mv: Move|
                b.legal(mv) ==> (closed.contents().contains(board_to_key(
                    #[trigger] b.do_move(mv),
                )) || open_has_board(open, b.do_move(mv)) || b.do_move(mv) == x)
        }
}

/// The frontier covers every solution: for every move sequence that solves
/// the start, some prefix of it ends on a board a frontier node stands for.
spec fn frontier_covers(open: OpenSet, start: Board) -> bool {
    forall|q: Seq<Move>| #[trigger]
        solves(start, q) ==> exists|j: int| covered_at(open, start, q, j)
}

/// Some prefix of the solution `q` ends exactly on the board `x`.
spec fn runs_through(start: Board, q: Seq<Move>, x: Board) -> bool {
    exists|j: int| 0 <= j <= q.len() && start.apply_path(#[trigger] q.take(j)) == Some(x)
}

/// Walking forward along a solution out of the expanded set: a recorded
/// board is never the goal, so following the solution from it must
/// eventually step onto a board the frontier covers.
proof fn lemma_closed_escape(
    open: OpenSet,
    closed: ClosedSet,
    start: Board,
    size: usize,
    q: Seq<Move>,
    k: int,
    bk: Board,
)
    requires
        closed_ok(closed, open, size),
        solves(start, q),
        start.n == size,
        0 <= k <= q.len(),
        start.apply_path(q.take(k)) == Some(bk),
        board_wf(bk),
        bk.n == size,
        closed.contents().contains(board_to_key(bk)),
    ensures
        exists|j: int| covered_at(open, start, q, j),
    decreases q.len() - k,
{
    let key = board_to_key(bk);
    assert(key_board(key) == bk);
    assert(closed.contents().contains(key));
    // A recorded board is not the goal, so the solution continues past it.
    if k == q.len() {
        assert(q.take(k) =~= q);
        assert(bk.grid == crate::spiral::goal_grid(size as int));
        assert(false);
    }
    lemma_apply_path_split(start, q, k);
    assert(bk.apply_path(q.skip(k)) is Some);
    assert(q.skip(k).len() > 0);
    assert(q.skip(k)[0] == q[k]);
    assert(bk.legal(q[k]));
    let succ = bk.do_move(q[k]);
    lemma_do_move_cells(bk, q[k]);
    lemma_apply_path_push(start, q.take(k), q[k], bk);
    assert(q.take(k).push(q[k]) =~= q.take(k + 1));
    assert(start.apply_path(q.take(k + 1)) == Some(succ));
    if open_has_board(open, succ) {
        assert(covered_at(open, start, q, k + 1));
    } else {
        assert(closed.contents().contains(board_to_key(succ)));
        lemma_closed_escape(open, closed, start, size, q, k + 1, succ);
    }
}

/// A frontier insert keeps every node that was already there.
proof fn lemma_open_grew(pre: OpenSet, post: OpenSet, added: OpenSetNode)
    requires
        post.contents() == pre.contents().insert(added),
    ensures
        forall|nd: OpenSetNode| pre.contents().contains(nd) ==> post.contents().contains(nd),
        post.contents().contains(added),
{
}

/// Coverage facts survive a frontier insert: board representation in the
/// frontier only grows.
proof fn lemma_monotone_facts(
    pre: OpenSet,
    post: OpenSet,
    closed: ClosedSet,
    start: Board,
    size: usize,
    x_board: Board,
    added: OpenSetNode,
)
    requires
        post.contents() == pre.contents().insert(added),
        closed_ok_except(closed, pre, size, x_board),
        forall|q: Seq<Move>| #[trigger]
            solves(start, q) ==> (exists|j: int| covered_at(pre, start, q, j)) || runs_through(
                start,
                q,
                x_board,
            ),
    ensures
        closed_ok_except(closed, post, size, x_board),
        forall|q: Seq<Move>| #[trigger]
            solves(start, q) ==> (exists|j: int| covered_at(post, start, q, j)) || runs_through(
                start,
                q,
                x_board,
            ),
{
    lemma_open_grew(pre, post, added);
    assert forall|b: Board| open_has_board(pre, b) implies open_has_board(post, b) by {
        let nd = choose|nd: OpenSetNode|
            pre.contents().contains(nd) && nd.spec_state().model() == b;
        assert(post.contents().contains(nd));
    }
    assert forall|k: (int, Seq<Seq<usize>>, crate::pos::Pos)| #[trigger]
        closed.contents().contains(k) implies {
            let b = key_board(k);
            &&& board_wf(b)
            &&& b.n == size
            &&& b.grid != crate::spiral::goal_grid(size as int)
            &&& forall|mv: Move|
                b.legal(mv) ==> (closed.contents().contains(board_to_key(#[trigger] b.do_move(mv)))
                    || open_has_board(post, b.do_move(mv)) || b.do_move(mv) == x_board)
        } by {
        let b = key_board(k);
        assert forall|mv: Move| b.legal(mv) implies (closed.contents().contains(board_to_key(
            #[trigger] b.do_move(mv),
        )) || open_has_board(post, b.do_move(mv)) || b.do_move(mv) == x_board) by {
            assert(closed.contents().contains(board_to_key(b.do_move(mv))) || open_has_board(
                pre,
                b.do_move(mv),
            ) || b.do_move(mv) == x_board);
        }
    }
    assert forall|q: Seq<Move>| #[trigger]
        solves(start, q) implies (exists|j: int| covered_at(post, start, q, j)) || runs_through(
        start,
        q,
        x_board,
    ) by {
        if exists|j: int| covered_at(pre, start, q, j) {
            let j = choose|j: int| covered_at(pre, start, q, j);
            assert(covered_at(post, start, q, j));
        }
    }
}

/// The heuristics whose value is defined directly on the board model.
pub open spec fn grid_level(h: Heuristic) -> bool {
    h == Heuristic::Manhattan || h == Heuristic::Hamming || h == Heuristic::Zero
}

/// The value of a grid-level heuristic on a board model.
pub open spec fn heuristic_model(h: Heuristic, b: Board) -> int {
    match h {
        Heuristic::Manhattan => crate::heuristic::manhattan_sum(b.n, b.grid, b.n * b.n),
        Heuristic::Hamming => crate::heuristic::hamming_sum(b.n, b.grid, b.n * b.n),
        _ => 0,
    }
}

/// What the greedy run ends in.
pub ghost enum GreedyOutcome {
    Solved(Seq<Move>),
    Stuck,
    Exhausted,
}

/// The strict-descent successor choice: walking the four directions in
/// order, keep the successor whose estimate strictly improves on the best
/// seen so far (starting from the current board's own estimate).
pub open spec fn greedy_fold(
    b: Board,
    h: Heuristic,
    i: int,
    best: Option<(Board, Move)>,
    score: int,
) -> Option<(Board, Move)>
    decreases 4 - i,
{
    if i < 0 || i >= 4 {
        best
    } else {
        let mv = seq![Move::Up, Move::Down, Move::Left, Move::Right][i];
        if b.legal(mv) && heuristic_model(h, b.do_move(mv)) < score {
            greedy_fold(b, h, i + 1, Some((b.do_move(mv), mv)), heuristic_model(h, b.do_move(mv)))
        } else {
            greedy_fold(b, h, i + 1, best, score)
        }
    }
}

/// The successor a greedy step takes, if any improves strictly.
pub open spec fn greedy_pick(b: Board, h: Heuristic) -> Option<(Board, Move)> {
    greedy_fold(b, h, 0, None, heuristic_model(h, b))
}

/// The whole greedy run from a board, with the moves made so far and the
/// remaining step budget.
pub open spec fn greedy_run_from(b: Board, h: Heuristic, acc: Seq<Move>, fuel: nat) -> GreedyOutcome
    decreases fuel,
{
    if fuel == 0 {
        GreedyOutcome::Exhausted
    } else if b.grid == crate::spiral::goal_grid(b.n) {
        GreedyOutcome::Solved(acc)
    } else {
        match greedy_pick(b, h) {
            Some((b2, mv)) => greedy_run_from(b2, h, acc.push(mv), (fuel - 1) as nat),
            None => GreedyOutcome::Stuck,
        }
    }
}

/// The greedy run of a start board under the node budget.
pub open spec fn greedy_run(b: Board, h: Heuristic) -> GreedyOutcome {
    greedy_run_from(b, h, Seq::empty(), NODE_BUDGET as nat)
}

/// The shared best-first skeleton: A*/uniform-cost when `is_greedy` is
/// false, strict-descent greedy when it is true.
///
/// On success the returned path is a legal move sequence that transforms the
/// start board into the goal arrangement.  In A*/uniform-cost mode,
/// `NoSolution` is returned only when no move sequence at all solves the
/// start board.  `Timeout` reports an expired budget: the configured wall
/// clock, or the `NODE_BUDGET` bound on expansion steps.
pub fn astar(puzzle: Puzzle, heuristic: Heuristic, is_greedy: bool, timeout: Option<u64>) -> (r:
    Result<Output, PuzzleError>)
    requires
        puzzle.wf(),
        heuristic != Heuristic::NotSet,
    ensures
        match r {
            Ok(out) => solves(puzzle.model(), out.path@) && out.complexity_in_time >= 1,
            Err(e) => {
                &&& (e == PuzzleError::NoSolution || e == PuzzleError::Timeout)
                &&& ((!is_greedy && e == PuzzleError::NoSolution) ==> forall|q: Seq<Move>|
                    !solves(puzzle.model(), q))
            },
        },
        (is_greedy && timeout.is_none() && grid_level(heuristic)) ==> (match greedy_run(
            puzzle.model(),
            heuristic,
        ) {
            GreedyOutcome::Solved(p) => (r matches Ok(out) && out.path@ == p),
            GreedyOutcome::Stuck => r == Err::<Output, PuzzleError>(PuzzleError::NoSolution),
            GreedyOutcome::Exhausted => r == Err::<Output, PuzzleError>(PuzzleError::Timeout),
        }),
{
    let ghost start = puzzle.model();
    let size = puzzle.get_size();
    proof {
        lemma_model_wf(puzzle);
    }
    let mut open_set = OpenSet::new();
    let mut closed_set = ClosedSet::new();
    let seed = OpenSetNode::new(puzzle, Vec::new(), 0, heuristic);
    let ghost seed_nd = seed;
    open_set.insert(seed);
    proof {
        assert forall|q: Seq<Move>| #[trigger] solves(start, q) implies exists|j: int|
            covered_at(open_set, start, q, j) by {
            assert(q.take(0) =~= Seq::<Move>::empty());
            assert(start.apply_path(q.take(0)) == Some(start));
            assert(open_set.contents().contains(seed_nd));
            assert(seed_nd.spec_state().model() == start);
            assert(open_has_board(open_set, start));
            assert(covered_at(open_set, start, q, 0));
        }
        assert(frontier_covers(open_set, start));
        assert(closed_ok(closed_set, open_set, size));
        if grid_level(heuristic) {
            assert(seed_nd.spec_heuristics_cost() as int == heuristic_model(heuristic, start));
            assert(greedy_run_from(start, heuristic, seed_nd.spec_path(), NODE_BUDGET as nat)
                == greedy_run(start, heuristic));
        }
        assert forall|nd: OpenSetNode| open_set.contents().contains(nd) implies nd == seed_nd by {
            if nd != seed_nd {
                assert(Multiset::<OpenSetNode>::empty().contains(nd));
            }
        }
    }
    let mut max_size: usize = 0;

    let start_time = instant_now();
    let mut fuel: u64 = NODE_BUDGET;
    while fuel > 0
        invariant
            1 <= size <= crate::board::MAX_SIZE,
            start.n == size,
            heuristic != Heuristic::NotSet,
            start == puzzle.model(),
            open_set.counters_ok(),
            open_set.spec_pushes() >= 1,
            forall|nd: OpenSetNode|
                open_set.contents().contains(nd) ==> #[trigger] node_ok(start, size, nd),
            !is_greedy ==> closed_ok(closed_set, open_set, size),
            !is_greedy ==> frontier_covers(open_set, start),
            is_greedy ==> open_set.spec_len() == 1,
            (is_greedy && grid_level(heuristic)) ==> forall|nd: OpenSetNode|
                open_set.contents().contains(nd) ==> (#[trigger] nd.spec_heuristics_cost()) as int
                    == heuristic_model(heuristic, nd.spec_state().model()),
            (is_greedy && grid_level(heuristic)) ==> forall|nd: OpenSetNode|
                open_set.contents().contains(nd) ==> #[trigger] greedy_run_from(
                    nd.spec_state().model(),
                    heuristic,
                    nd.spec_path(),
                    fuel as nat,
                ) == greedy_run(start, heuristic),
        decreases fuel,
    {
        let ghost fuel0 = fuel;
        fuel = fuel - 1;
        let ghost open0 = open_set;
        let node = match open_set.pop() {
            Some(node) => node,
            None => {
                proof {
                    if is_greedy {
                        assert(open0.spec_len() == 1);
                        assert(false);
                    }
                    if !is_greedy {
                        open_set.lemma_no_nodes();
                        assert forall|q: Seq<Move>| !solves(start, q) by {
                            if solves(start, q) {
                                let j = choose|j: int| covered_at(open0, start, q, j);
                                let bj = start.apply_path(q.take(j))->Some_0;
                                let nd = choose|nd: OpenSetNode|
                                    open0.contents().contains(nd) && nd.spec_state().model() == bj;
                                assert(open_set.contents().contains(nd));
                                assert(false);
                            }
                        }
                    }
                }
                return Err(PuzzleError::NoSolution);
            },
        };
        let ghost nd_popped = node;
        let ghost x_board = node.spec_state().model();
        proof {
            assert(node_ok(start, size, node));
            lemma_model_wf(node.spec_state());
            if !is_greedy {
                // After the pop, a successor of an expanded board is still
                // expanded or in the frontier, or it is the popped board.
                assert forall|k: (int, Seq<Seq<usize>>, crate::pos::Pos)| #[trigger]
                    closed_set.contents().contains(k) implies {
                        let b = key_board(k);
                        &&& board_wf(b)
                        &&& b.n == size
                        &&& b.grid != crate::spiral::goal_grid(size as int)
                        &&& forall|mv: Move|
                            b.legal(mv) ==> (closed_set.contents().contains(board_to_key(
                                #[trigger] b.do_move(mv),
                            )) || open_has_board(open_set, b.do_move(mv)) || b.do_move(mv)
                                == x_board)
                    } by {
                    let b = key_board(k);
                    assert forall|mv: Move| b.legal(mv) implies (closed_set.contents().contains(
                        board_to_key(#[trigger] b.do_move(mv)),
                    ) || open_has_board(open_set, b.do_move(mv)) || b.do_move(mv) == x_board) by {
                        if !closed_set.contents().contains(board_to_key(b.do_move(mv))) {
                            let nd = choose|nd: OpenSetNode|
                                open0.contents().contains(nd) && nd.spec_state().model()
                                    == b.do_move(mv);
                            if open_set.contents().contains(nd) {
                                assert(open_has_board(open_set, b.do_move(mv)));
                            } else {
                                assert(nd == nd_popped);
                                assert(b.do_move(mv) == x_board);
                            }
                        }
                    }
                }
                assert(closed_ok_except(closed_set, open_set, size, x_board));
                // Every solution is still covered by the frontier, or runs
                // through the popped board.
                assert forall|q: Seq<Move>| #[trigger] solves(start, q) implies (exists|j: int|
                    covered_at(open_set, start, q, j)) || runs_through(start, q, x_board) by {
                    let j = choose|j: int| covered_at(open0, start, q, j);
                    let bj = start.apply_path(q.take(j))->Some_0;
                    let nd = choose|nd: OpenSetNode|
                        open0.contents().contains(nd) && nd.spec_state().model() == bj;
                    if open_set.contents().contains(nd) {
                        assert(covered_at(open_set, start, q, j));
                    } else {
                        assert(nd == nd_popped);
                        assert(bj == x_board);
                        assert(start.apply_path(q.take(j)) == Some(x_board));
                        assert(runs_through(start, q, x_board));
                    }
                }
            }
        }
        if let Some(limit) = timeout {
            proof {
                assert((limit as int) * 1000000 < u128::MAX) by (nonlinear_arith)
                    requires
                        limit as int <= u64::MAX as int,
                ;
            }
            let elapsed = duration_as_micros(&instant_elapsed(&start_time));
            if elapsed > (limit as u128) * 1000000 {
                return Err(PuzzleError::Timeout);
            }
        }
        if node.is_goal() {
            proof {
                if is_greedy && timeout.is_none() && grid_level(heuristic) {
                    assert(greedy_run_from(x_board, heuristic, nd_popped.spec_path(), fuel0 as nat)
                        == GreedyOutcome::Solved(nd_popped.spec_path()));
                }
            }
            let path = copy_moves(node.path());
            let elapsed = elapsed_micros(&start_time);
            return Ok(
                Output::new(open_set.get_append_count(), max_size, elapsed, path),
            );
        }
        if is_greedy {
            proof {
                if grid_level(heuristic) {
                    assert(node.spec_heuristics_cost() as int == heuristic_model(
                        heuristic,
                        x_board,
                    ));
                }
            }
            let mut score = node.heuristics_cost();
            let mut optimal: Option<(Puzzle, Move)> = None;
            let moves = Move::list();
            let mut k: usize = 0;
            while k < moves.len()
                invariant
                    1 <= size <= crate::board::MAX_SIZE,
                    start.n == size,
                    heuristic != Heuristic::NotSet,
                    node_ok(start, size, node),
                    x_board == node.spec_state().model(),
                    k <= moves@.len(),
                    moves@ == seq![Move::Up, Move::Down, Move::Left, Move::Right],
                    open_set.counters_ok(),
                    open_set.spec_pushes() >= 1,
                    match optimal {
                        Some((p, mv)) => {
                            &&& p.wf()
                            &&& p.size == size
                            &&& node.spec_state().model().legal(mv)
                            &&& p.model() == node.spec_state().model().do_move(mv)
                        },
                        None => true,
                    },
                    grid_level(heuristic) ==> score as int == (match optimal {
                        None => heuristic_model(heuristic, x_board),
                        Some((p, mv)) => heuristic_model(heuristic, p.model()),
                    }),
                    grid_level(heuristic) ==> greedy_pick(x_board, heuristic) == greedy_fold(
                        x_board,
                        heuristic,
                        k as int,
                        (match optimal {
                            Some((p, mv)) => Some((p.model(), mv)),
                            None => None::<(Board, Move)>,
                        }),
                        score as int,
                    ),
                decreases moves@.len() - k,
            {
                let mv = moves[k];
                let mut new_state = node.state().clone();
                proof {
                    crate::board::lemma_wf_same_fields(node.spec_state(), new_state);
                    assert(new_state.model() == node.spec_state().model());
                }
                let step = new_state.move_blank(mv);
                if let Ok(()) = step {
                    let new_score = heuristic.evaluate(&new_state);
                    proof {
                        if grid_level(heuristic) {
                            assert(new_score as int == heuristic_model(
                                heuristic,
                                x_board.do_move(mv),
                            ));
                        }
                    }
                    if new_score < score {
                        score = new_score;
                        optimal = Some((new_state, mv));
                    }
                } else {
                    proof {
                        assert(!x_board.legal(mv));
                    }
                }
                k += 1;
            }
            proof {
                if grid_level(heuristic) {
                    assert(greedy_pick(x_board, heuristic) == (match optimal {
                        Some((p, mv)) => Some((p.model(), mv)),
                        None => None::<(Board, Move)>,
                    }));
                }
            }
            match optimal {
                Some((optimal_state, optimal_move)) => {
                    let mut new_path = copy_moves(node.path());
                    new_path.push(optimal_move);
                    let g = new_path.len();
                    proof {
                        lemma_apply_path_push(
                            start,
                            node.spec_path(),
                            optimal_move,
                            node.spec_state().model(),
                        );
                    }
                    let child = OpenSetNode::new(optimal_state, new_path, g, heuristic);
                    let ghost child_nd = child;
                    open_set.insert(child);
                    proof {
                        open0.lemma_singleton();
                        assert(open0.contents() == Multiset::<OpenSetNode>::empty().insert(
                            nd_popped,
                        ));
                        assert(open0.contents().remove(nd_popped) =~= Multiset::<
                            OpenSetNode,
                        >::empty());
                        assert(open_set.contents() =~= Multiset::<OpenSetNode>::empty().insert(
                            child_nd,
                        ));
                        assert forall|nd: OpenSetNode|
                            open_set.contents().contains(nd) implies nd == child_nd by {
                            if nd != child_nd {
                                assert(open_set.contents().count(nd) == Multiset::<
                                    OpenSetNode,
                                >::empty().count(nd));
                            }
                        }
                        if grid_level(heuristic) {
                            assert(greedy_run_from(
                                x_board,
                                heuristic,
                                nd_popped.spec_path(),
                                fuel0 as nat,
                            ) == greedy_run(start, heuristic));
                            assert(greedy_run_from(x_board, heuristic, nd_popped.spec_path(), fuel0 as nat)
                                == greedy_run_from(
                                child_nd.spec_state().model(),
                                heuristic,
                                child_nd.spec_path(),
                                fuel as nat,
                            ));
                            assert(child_nd.spec_heuristics_cost() as int == heuristic_model(
                                heuristic,
                                child_nd.spec_state().model(),
                            ));
                        }
                    }
                },
                None => {
                    proof {
                        if timeout.is_none() && grid_level(heuristic) {
                            assert(greedy_run_from(
                                x_board,
                                heuristic,
                                nd_popped.spec_path(),
                                fuel0 as nat,
                            ) == GreedyOutcome::Stuck);
                        }
                    }
                    return Err(PuzzleError::NoSolution);
                },
            }
        } else {
            proof {
                // The popped board is not the goal arrangement.
                assert(x_board.grid != crate::spiral::goal_grid(size as int));
            }
            let moves = Move::list();
            let mut k: usize = 0;
            while k < moves.len()
                invariant
                    1 <= size <= crate::board::MAX_SIZE,
                    start.n == size,
                    heuristic != Heuristic::NotSet,
                    !is_greedy,
                    node_ok(start, size, node),
                    x_board == node.spec_state().model(),
                    board_wf(x_board),
                    k <= moves@.len(),
                    moves@ == seq![Move::Up, Move::Down, Move::Left, Move::Right],
                    open_set.counters_ok(),
                    open_set.spec_pushes() >= 1,
                    forall|nd: OpenSetNode|
                        open_set.contents().contains(nd) ==> #[trigger] node_ok(start, size, nd),
                    closed_ok_except(closed_set, open_set, size, x_board),
                    forall|q: Seq<Move>| #[trigger]
                        solves(start, q) ==> (exists|j: int|
                            covered_at(open_set, start, q, j)) || runs_through(start, q, x_board),
                    forall|j: int|
                        0 <= j < k ==> (x_board.legal(#[trigger] moves@[j])
                            ==> closed_set.contents().contains(board_to_key(
                            x_board.do_move(moves@[j]),
                        )) || open_has_board(open_set, x_board.do_move(moves@[j]))),
                decreases moves@.len() - k,
            {
                let ghost open1 = open_set;
                let mv = moves[k];
                let mut new_state = node.state().clone();
                proof {
                    crate::board::lemma_wf_same_fields(node.spec_state(), new_state);
                    assert(new_state.model() == node.spec_state().model());
                }
                if let Ok(()) = new_state.move_blank(mv) {
                    proof {
                        assert(new_state.model() == x_board.do_move(mv));
                        assert(board_key(new_state) == board_to_key(x_board.do_move(mv)));
                    }
                    if !closed_set.contains(&new_state) {
                        let mut new_path = copy_moves(node.path());
                        new_path.push(mv);
                        let g = new_path.len();
                        proof {
                            lemma_apply_path_push(
                                start,
                                node.spec_path(),
                                mv,
                                node.spec_state().model(),
                            );
                        }
                        let fresh = OpenSetNode::new(new_state, new_path, g, heuristic);
                        let ghost fresh_nd = fresh;
                        open_set.insert(fresh);
                        proof {
                            lemma_open_grew(open1, open_set, fresh_nd);
                            assert(open_set.contents().contains(fresh_nd));
                            assert(fresh_nd.spec_state().model() == x_board.do_move(mv));
                            assert(open_has_board(open_set, x_board.do_move(mv)));
                            lemma_monotone_facts(
                                open1,
                                open_set,
                                closed_set,
                                start,
                                size,
                                x_board,
                                fresh_nd,
                            );
                        }
                    }
                }
                k += 1;
            }
            let ghost closed0 = closed_set;
            closed_set.insert(node.to_state());
            proof {
                assert(board_key(nd_popped.spec_state()) == board_to_key(x_board));
                assert(key_board(board_to_key(x_board)) == x_board);
                // Every legal move is one of the four directions, so the
                // processed list settles them all.
                let ghost moves_all = seq![Move::Up, Move::Down, Move::Left, Move::Right];
                assert forall|k2: (int, Seq<Seq<usize>>, crate::pos::Pos)| #[trigger]
                    closed_set.contents().contains(k2) implies {
                        let b = key_board(k2);
                        &&& board_wf(b)
                        &&& b.n == size
                        &&& b.grid != crate::spiral::goal_grid(size as int)
                        &&& forall|mv: Move|
                            b.legal(mv) ==> (closed_set.contents().contains(board_to_key(
                                #[trigger] b.do_move(mv),
                            )) || open_has_board(open_set, b.do_move(mv)))
                    } by {
                    let b = key_board(k2);
                    if k2 == board_to_key(x_board) {
                        assert(b == x_board);
                        assert forall|mv: Move| b.legal(mv) implies (closed_set.contents().contains(
                            board_to_key(#[trigger] b.do_move(mv)),
                        ) || open_has_board(open_set, b.do_move(mv))) by {
                            assert(match mv {
                                Move::Up => moves_all[0] == mv,
                                Move::Down => moves_all[1] == mv,
                                Move::Left => moves_all[2] == mv,
                                Move::Right => moves_all[3] == mv,
                            });
                            let j = choose|j: int| 0 <= j < 4 && moves_all[j] == mv;
                            assert(x_board.legal(moves_all[j]) ==> closed0.contents().contains(
                                board_to_key(x_board.do_move(moves_all[j])),
                            ) || open_has_board(open_set, x_board.do_move(moves_all[j])));
                        }
                    } else {
                        assert(closed0.contents().contains(k2));
                        assert forall|mv: Move| b.legal(mv) implies (closed_set.contents().contains(
                            board_to_key(#[trigger] b.do_move(mv)),
                        ) || open_has_board(open_set, b.do_move(mv))) by {
                            assert(closed0.contents().contains(board_to_key(b.do_move(mv)))
                                || open_has_board(open_set, b.do_move(mv)) || b.do_move(mv)
                                == x_board);
                            if b.do_move(mv) == x_board {
                                assert(closed_set.contents().contains(board_to_key(x_board)));
                            }
                        }
                    }
                }
                assert(closed_ok(closed_set, open_set, size));
                // Re-establish full coverage: a solution through the popped
                // board escapes the expanded set somewhere further along.
                assert forall|q: Seq<Move>| #[trigger] solves(start, q) implies exists|j: int|
                    covered_at(open_set, start, q, j) by {
                    if !(exists|j: int| covered_at(open_set, start, q, j)) {
                        assert(runs_through(start, q, x_board));
                        let j = choose|j: int|
                            0 <= j <= q.len() && start.apply_path(#[trigger] q.take(j)) == Some(
                                x_board,
                            );
                        lemma_closed_escape(open_set, closed_set, start, size, q, j, x_board);
                    }
                }
                assert(frontier_covers(open_set, start));
            }
        }
        let members = sat_add_usize(open_set.len(), closed_set.len());
        if members > max_size {
            max_size = members;
        }
    }
    proof {
        if is_greedy && timeout.is_none() && grid_level(heuristic) {
            open_set.lemma_some_node();
            let nd = choose|nd: OpenSetNode| open_set.contents().contains(nd);
            assert(greedy_run_from(nd.spec_state().model(), heuristic, nd.spec_path(), 0nat)
                == GreedyOutcome::Exhausted);
            assert(greedy_run(start, heuristic) == GreedyOutcome::Exhausted);
        }
    }
    Err(PuzzleError::Timeout)
}

/// The solver configuration: variant, heuristic, start board, optional
/// timeout in seconds, and the verbosity of the rendered report.
pub struct Solver {
    algorithm: Algorithm,
    heuristic: Heuristic,
    start_state: Puzzle,
    timeout: Option<u64>,
    verbose: bool,
}

impl Solver {
    pub closed spec fn spec_algorithm(self) -> Algorithm {
        self.algorithm
    }

    pub closed spec fn spec_heuristic(self) -> Heuristic {
        self.heuristic
    }

    pub closed spec fn spec_start_state(self) -> Puzzle {
        self.start_state
    }

    pub closed spec fn spec_timeout(self) -> Option<u64> {
        self.timeout
    }

    pub closed spec fn spec_verbose(self) -> bool {
        self.verbose
    }

    pub fn new(
        algorithm: Algorithm,
        heuristic: Heuristic,
        start_state: Puzzle,
        timeout: Option<u64>,
        verbose: bool,
    ) -> (r: Solver)
        ensures
            r.spec_algorithm() == algorithm,
            r.spec_heuristic() == heuristic,
            r.spec_start_state() == start_state,
            r.spec_timeout() == timeout,
            r.spec_verbose() == verbose,
    {
        Solver { algorithm, heuristic, start_state, timeout, verbose }
    }

    /// Run the configured search.  A successful report's path is a legal
    /// move sequence from the start board to the goal.  For A* and uniform
    /// cost, `NoSolution` says that no move sequence at all solves the
    /// start board.  `Timeout` reports an expired budget: the configured
    /// wall clock, or the search's `NODE_BUDGET` bound on expansion steps.
    pub fn solve(&self) -> (r: Result<Output, PuzzleError>)
        requires
            self.spec_start_state().wf(),
        ensures
            match r {
                Ok(out) => solves(self.spec_start_state().model(), out.path@),
                Err(e) => {
                    &&& (e == PuzzleError::NoSolution || e == PuzzleError::Timeout || e
                        == PuzzleError::HeuristicNotSet)
                    &&& ((self.spec_algorithm() != Algorithm::Greedy && e
                        == PuzzleError::NoSolution) ==> forall|q: Seq<Move>|
                        !solves(self.spec_start_state().model(), q))
                    &&& e == PuzzleError::HeuristicNotSet <==> (self.spec_algorithm()
                        != Algorithm::UniformCost && self.spec_heuristic() == Heuristic::NotSet)
                },
            },
            (self.spec_algorithm() == Algorithm::Greedy && self.spec_timeout().is_none()
                && grid_level(self.spec_heuristic())) ==> (match greedy_run(
                self.spec_start_state().model(),
                self.spec_heuristic(),
            ) {
                GreedyOutcome::Solved(p) => (r matches Ok(out) && out.path@ == p),
                GreedyOutcome::Stuck => r == Err::<Output, PuzzleError>(PuzzleError::NoSolution),
                GreedyOutcome::Exhausted => r == Err::<Output, PuzzleError>(PuzzleError::Timeout),
            }),
            (self.spec_algorithm() != Algorithm::UniformCost && self.spec_heuristic()
                == Heuristic::NotSet) ==> r == Err::<Output, PuzzleError>(
                PuzzleError::HeuristicNotSet,
            ),
    {
        match self.algorithm {
            Algorithm::AStar => {
                let h = match self.heuristic.get_heuristic() {
                    Ok(h) => h,
                    Err(e) => {
                        return Err(e);
                    },
                };
                let board = self.start_state.clone();
                proof {
                    crate::board::lemma_wf_same_fields(self.spec_start_state(), board);
                    assert(board.model() == self.spec_start_state().model());
                }
                astar(board, h, false, self.timeout)
            },
            Algorithm::UniformCost => {
                let board = self.start_state.clone();
                proof {
                    crate::board::lemma_wf_same_fields(self.spec_start_state(), board);
                    assert(board.model() == self.spec_start_state().model());
                }
                astar(board, Heuristic::Zero, false, self.timeout)
            },
            Algorithm::Greedy => {
                let h = match self.heuristic.get_heuristic() {
                    Ok(h) => h,
                    Err(e) => {
                        return Err(e);
                    },
                };
                let board = self.start_state.clone();
                proof {
                    crate::board::lemma_wf_same_fields(self.spec_start_state(), board);
                    assert(board.model() == self.spec_start_state().model());
                }
                astar(board, h, true, self.timeout)
            },
        }
    }
}

} // verus!
