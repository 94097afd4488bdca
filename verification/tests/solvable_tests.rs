use n_puzzle::board::Puzzle;

#[test]
fn test_is_trivial_solvable() {
    let puzzle =
        Puzzle::new_from_state(vec![vec![1, 2, 3], vec![8, 0, 4], vec![7, 6, 5]]).unwrap();
    assert!(puzzle.is_solvable().unwrap());
}

#[test]
fn test_is_not_trivial_solvable() {
    let puzzle =
        Puzzle::new_from_state(vec![vec![1, 2, 3], vec![8, 0, 7], vec![4, 6, 5]]).unwrap();
    assert!(!puzzle.is_solvable().unwrap());
}

#[test]
fn test_is_solvable_4x4() {
    let puzzle = Puzzle::new_from_state(vec![
        vec![8, 1, 7, 3],
        vec![5, 2, 6, 12],
        vec![11, 0, 4, 14],
        vec![10, 13, 15, 9],
    ])
    .unwrap();
    assert!(puzzle.is_solvable().unwrap());
}

#[test]
fn test_is_not_solvable_4x4() {
    let puzzle = Puzzle::new_from_state(vec![
        vec![8, 1, 7, 3],
        vec![5, 2, 6, 12],
        vec![11, 0, 4, 14],
        vec![10, 13, 9, 15],
    ])
    .unwrap();
    assert!(!puzzle.is_solvable().unwrap());
}

#[test]
fn test_unsolvable_case() {
    let puzzle =
        Puzzle::new_from_state(vec![vec![5, 2, 4], vec![8, 1, 6], vec![0, 3, 7]]).unwrap();
    assert!(!puzzle.is_solvable().unwrap());
}
