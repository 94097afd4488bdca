use n_puzzle::board::Puzzle;
use n_puzzle::moves::Move;
use n_puzzle::output::Output;

#[test]
fn test_output_verbose() {
    let output = Output::new(1, 1, 1000000, vec![Move::Right]);
    let puzzle =
        Puzzle::new_from_state(vec![vec![1, 2, 3], vec![4, 5, 6], vec![7, 0, 8]]).unwrap();
    let text = output.get_result_string(puzzle, true).unwrap();
    assert_eq!(
        text,
        "Complexity in time: 1
Complexity in size: 1
Elapsed time: 1.000000 seconds
Number of moves: 1
1 2 3
4 5 6
7 0 8
\u{2193} Right
1 2 3
4 5 6
7 8 0
"
    );
}

#[test]
fn test_output_non_verbose() {
    let output = Output::new(1, 1, 2000000, vec![Move::Up, Move::Left]);
    let puzzle =
        Puzzle::new_from_state(vec![vec![1, 2, 3], vec![4, 0, 5], vec![7, 8, 6]]).unwrap();
    let text = output.get_result_string(puzzle, false).unwrap();
    assert_eq!(
        text,
        "Complexity in time: 1
Complexity in size: 1
Elapsed time: 2.000000 seconds
Number of moves: 2
1 2 3
4 0 5
7 8 6
Moves: Up Left 
"
    );
}

#[test]
fn test_output_illegal_path() {
    let output = Output::new(1, 1, 0, vec![Move::Up, Move::Up, Move::Up]);
    let puzzle = Puzzle::new_answer(3);
    assert!(output.get_result_string(puzzle, true).is_err());
}
