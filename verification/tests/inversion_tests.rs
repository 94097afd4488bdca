use n_puzzle::board::Puzzle;
use n_puzzle::inversion::{
    calculate_move_lower_limit, count_inversions, inversion_distance, puzzle_to_vec_lr_tb,
    puzzle_to_vec_tb_lr,
};

#[test]
fn test_puzzle_to_vec_lr_tb_trivial() {
    let puzzle =
        Puzzle::new_from_state(vec![vec![1, 2, 3], vec![8, 0, 4], vec![7, 6, 5]]).unwrap();
    let flat_state = puzzle_to_vec_lr_tb(&puzzle);
    assert_eq!(flat_state, vec![1, 2, 3, 4, 6, 7, 8, 9]);
}

#[test]
fn test_puzzle_to_vec_lr_tb_normal() {
    let puzzle =
        Puzzle::new_from_state(vec![vec![1, 0, 3], vec![2, 8, 4], vec![7, 5, 6]]).unwrap();
    let flat_state = puzzle_to_vec_lr_tb(&puzzle);
    assert_eq!(flat_state, vec![1, 3, 2, 4, 6, 7, 9, 8]);
}

#[test]
fn test_puzzle_to_vec_tb_lr_trivial() {
    let puzzle =
        Puzzle::new_from_state(vec![vec![1, 2, 3], vec![8, 0, 4], vec![7, 6, 5]]).unwrap();
    let flat_state = puzzle_to_vec_tb_lr(&puzzle);
    assert_eq!(flat_state, vec![1, 2, 3, 4, 6, 7, 8, 9]);
}

#[test]
fn test_puzzle_to_vec_tb_lr_normal() {
    let puzzle =
        Puzzle::new_from_state(vec![vec![2, 1, 3], vec![8, 4, 0], vec![7, 5, 6]]).unwrap();
    let flat_state = puzzle_to_vec_tb_lr(&puzzle);
    assert_eq!(flat_state, vec![4, 2, 3, 1, 8, 9, 7, 6]);
}

#[test]
fn test_count_inversions_trivial() {
    let flat_state = vec![1, 2, 3, 4, 6, 7, 8, 9];
    let count = count_inversions(&flat_state);
    assert_eq!(count, 0);
}

#[test]
fn test_count_inversions_normal() {
    let flat_state = vec![1, 9, 2, 5, 3, 8, 7, 6];
    let count = count_inversions(&flat_state);
    assert_eq!(count, 10);
}

#[test]
fn test_calculate_move_lower_limit_3() {
    let inversions = 10;
    let size = 3;
    let count = calculate_move_lower_limit(inversions, size);
    assert_eq!(count, 5);
}

#[test]
fn test_calculate_move_lower_limit_4() {
    let inversions = 10;
    let size = 4;
    let count = calculate_move_lower_limit(inversions, size);
    assert_eq!(count, 4);
}

#[test]
fn test_calculate_move_lower_limit_5() {
    let inversions = 18;
    let size = 5;
    let count = calculate_move_lower_limit(inversions, size);
    assert_eq!(count, 5);
}

#[test]
fn test_calculate_move_lower_limit_6() {
    let inversions = 19;
    let size = 6;
    let count = calculate_move_lower_limit(inversions, size);
    assert_eq!(count, 5);
}

#[test]
fn test_inversion_distance_trivial() {
    let puzzle =
        Puzzle::new_from_state(vec![vec![1, 2, 3], vec![8, 0, 4], vec![7, 6, 5]]).unwrap();
    let distance = inversion_distance(&puzzle);
    assert_eq!(distance, 0);
}

#[test]
fn test_inversion_distance_normal() {
    let puzzle =
        Puzzle::new_from_state(vec![vec![2, 8, 3], vec![1, 0, 4], vec![7, 6, 5]]).unwrap();
    let distance = inversion_distance(&puzzle);
    assert_eq!(distance, 4);
}
