use n_puzzle::board::Puzzle;
use n_puzzle::errors::PuzzleError;
use n_puzzle::heuristic::Heuristic;
use n_puzzle::moves::Move;
use n_puzzle::search::{astar, Algorithm, Solver};

#[test]
fn test_greedy_trivial() {
    let puzzle =
        Puzzle::new_from_state(vec![vec![1, 2, 3], vec![0, 8, 4], vec![7, 6, 5]]).unwrap();
    let output = astar(puzzle, Heuristic::Hamming, true, None).unwrap();
    assert!(output.path.len() == 1);
    assert!(output.path[0] == Move::Right);
}

#[test]
fn test_greedy() {
    let mut puzzle =
        Puzzle::new_from_state(vec![vec![0, 2, 3], vec![1, 8, 4], vec![7, 6, 5]]).unwrap();
    let output = astar(puzzle.clone(), Heuristic::Hamming, true, None).unwrap();
    assert!(output.path.len() == 2);
    for m in output.path {
        puzzle.move_blank(m).unwrap();
    }
    assert!(puzzle.is_final_state());
}

#[test]
fn test_greedy_unsolvable() {
    let puzzle =
        Puzzle::new_from_state(vec![vec![1, 0, 6], vec![5, 3, 8], vec![4, 2, 7]]).unwrap();
    assert!(astar(puzzle, Heuristic::Hamming, true, None).is_err());
}

#[test]
fn test_uniform_cost() {
    let mut puzzle = Puzzle::generate_solvable(3).unwrap();
    let output = astar(puzzle.clone(), Heuristic::Manhattan, false, None).unwrap();
    for m in output.path {
        puzzle.move_blank(m).unwrap();
    }
    assert!(puzzle.is_final_state());
}

/// Applying the reported path always reaches the goal (goal closure).
#[test]
fn test_goal_closure_all_algorithms() {
    let start =
        Puzzle::new_from_state(vec![vec![1, 2, 3], vec![8, 6, 0], vec![7, 5, 4]]).unwrap();
    for heuristic in [
        Heuristic::Manhattan,
        Heuristic::Hamming,
        Heuristic::LinearConflict,
        Heuristic::InversionDistance,
        Heuristic::Zero,
    ] {
        let mut board = start.clone();
        let output = astar(board.clone(), heuristic, false, None).unwrap();
        for m in output.path {
            board.move_blank(m).unwrap();
        }
        assert!(board.is_final_state());
    }
}

/// A* with an admissible heuristic finds paths exactly as short as uniform
/// cost does.
#[test]
fn test_astar_optimality_matches_uniform_cost() {
    // Six moves away from the goal.
    let mut start = Puzzle::new_answer(3);
    for m in [Move::Down, Move::Right, Move::Up, Move::Left, Move::Down, Move::Left] {
        start.move_blank(m).unwrap();
    }
    let baseline = astar(start.clone(), Heuristic::Zero, false, None)
        .unwrap()
        .path
        .len();
    for heuristic in [
        Heuristic::Manhattan,
        Heuristic::Hamming,
        Heuristic::LinearConflict,
        Heuristic::InversionDistance,
    ] {
        let output = astar(start.clone(), heuristic, false, None).unwrap();
        assert_eq!(output.path.len(), baseline);
    }
}

/// Every heuristic stays below the true shortest distance on sampled boards
/// (admissibility), with uniform-cost lengths as ground truth.
#[test]
fn test_heuristic_admissibility_samples() {
    let mut start = Puzzle::new_answer(3);
    let scramble = [
        Move::Down,
        Move::Right,
        Move::Up,
        Move::Up,
        Move::Left,
        Move::Down,
        Move::Left,
        Move::Down,
    ];
    for m in scramble {
        start.move_blank(m).unwrap();
        let optimal = astar(start.clone(), Heuristic::Zero, false, None)
            .unwrap()
            .path
            .len();
        for heuristic in [
            Heuristic::Manhattan,
            Heuristic::Hamming,
            Heuristic::LinearConflict,
            Heuristic::InversionDistance,
        ] {
            assert!((heuristic.evaluate(&start) as usize) <= optimal);
        }
    }
}

/// Every solvable 2x2 board is actually solved by uniform cost.
#[test]
fn test_solvable_boards_are_solved() {
    for _ in 0..20 {
        let mut board = Puzzle::generate_solvable(2).unwrap();
        let output = astar(board.clone(), Heuristic::Zero, false, None).unwrap();
        for m in output.path {
            board.move_blank(m).unwrap();
        }
        assert!(board.is_final_state());
    }
}

/// The frontier counters of a one-move greedy search: the seed and one
/// successor were pushed; the peak membership was one.
#[test]
fn test_frontier_counters() {
    let puzzle =
        Puzzle::new_from_state(vec![vec![1, 2, 3], vec![0, 8, 4], vec![7, 6, 5]]).unwrap();
    let output = astar(puzzle, Heuristic::Hamming, true, None).unwrap();
    assert_eq!(output.complexity_in_time, 2);
    assert_eq!(output.complexity_in_size, 1);
}

#[test]
fn test_solver_heuristic_not_set() {
    let puzzle = Puzzle::new_answer(3);
    let solver = Solver::new(Algorithm::AStar, Heuristic::NotSet, puzzle, None, false);
    assert_eq!(solver.solve().unwrap_err(), PuzzleError::HeuristicNotSet);
}

#[test]
fn test_solver_uniform_cost_ignores_heuristic_tag() {
    let mut puzzle = Puzzle::new_answer(3);
    puzzle.move_blank(Move::Down).unwrap();
    let solver = Solver::new(Algorithm::UniformCost, Heuristic::NotSet, puzzle, None, false);
    let output = solver.solve().unwrap();
    assert_eq!(output.path.len(), 1);
}

#[test]
fn test_timeout_expires() {
    // An exhausted budget of zero seconds stops the search at a poll point.
    let start =
        Puzzle::new_from_state(vec![vec![5, 2, 4], vec![8, 1, 6], vec![0, 3, 7]]).unwrap();
    let mut saw_timeout = false;
    for _ in 0..1000 {
        match astar(start.clone(), Heuristic::Zero, false, Some(0)) {
            Err(PuzzleError::Timeout) => {
                saw_timeout = true;
                break;
            }
            Err(e) => panic!("unexpected error: {:?}", e),
            Ok(_) => panic!("unsolvable board reported solved"),
        }
    }
    assert!(saw_timeout);
}
