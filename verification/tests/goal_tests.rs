use n_puzzle::board::Puzzle;
use n_puzzle::errors::PuzzleError;
use n_puzzle::heuristic::{hamming, linear_conflict, manhattan, Heuristic};
use n_puzzle::moves::Move;
use n_puzzle::pos::Pos;

#[test]
fn test_new_answer_four() {
    let puzzle = Puzzle::new_answer(4);
    assert_eq!(
        puzzle.state,
        vec![
            vec![1, 2, 3, 4],
            vec![12, 13, 14, 5],
            vec![11, 0, 15, 6],
            vec![10, 9, 8, 7],
        ]
    );
    assert_eq!(puzzle.blank_pos, Pos::new(1, 2));
}

#[test]
fn test_answer_pos_map() {
    let map = Puzzle::generate_answer_pos_map(3);
    assert_eq!(map.len(), 9);
    assert_eq!(map[&1], Pos::new(0, 0));
    assert_eq!(map[&3], Pos::new(2, 0));
    assert_eq!(map[&0], Pos::new(1, 1));
    assert_eq!(map[&5], Pos::new(2, 2));
    assert_eq!(map[&8], Pos::new(0, 1));
}

#[test]
fn test_arrange_order_map() {
    let map = Puzzle::generate_arrange_order_answer_map(3, false);
    assert_eq!(map.len(), 9);
    assert_eq!(map[&1], 1);
    assert_eq!(map[&2], 2);
    assert_eq!(map[&3], 3);
    assert_eq!(map[&8], 4);
    assert_eq!(map[&0], 5);
    assert_eq!(map[&4], 6);
    assert_eq!(map[&7], 7);
    assert_eq!(map[&6], 8);
    assert_eq!(map[&5], 9);
}

#[test]
fn test_arrange_order_map_zero() {
    let map = Puzzle::generate_arrange_order_answer_map(3, true);
    // The value of the goal's bottom-right cell (5) maps to 0.
    assert_eq!(map[&5], 0);
    assert_eq!(map[&1], 1);
}

#[test]
fn test_goal_row_and_col_membership() {
    let puzzle = Puzzle::new_answer(3);
    // Tile 1 at (0, 0) is in both its goal row and its goal column.
    assert!(puzzle.is_in_final_row(Pos::new(0, 0)));
    assert!(puzzle.is_in_final_col(Pos::new(0, 0)));
    // The blank never counts.
    assert!(!puzzle.is_in_final_row(Pos::new(1, 1)));
    assert!(!puzzle.is_in_final_col(Pos::new(1, 1)));
}

#[test]
fn test_heuristics_exact_values() {
    let goal = Puzzle::new_answer(3);
    assert_eq!(manhattan(&goal), 0);
    assert_eq!(hamming(&goal), 0);
    assert_eq!(linear_conflict(&goal), 0);
    // One tile (8) is one step from home; the blank does not count.
    let near = Puzzle::new_from_state(vec![vec![1, 2, 3], vec![0, 8, 4], vec![7, 6, 5]]).unwrap();
    assert_eq!(manhattan(&near), 1);
    assert_eq!(hamming(&near), 1);
    assert_eq!(linear_conflict(&near), 1);
}

/// Any heuristic returns the same value on repeated calls.
#[test]
fn test_heuristics_idempotent() {
    let puzzle =
        Puzzle::new_from_state(vec![vec![2, 8, 3], vec![1, 0, 4], vec![7, 6, 5]]).unwrap();
    for heuristic in [
        Heuristic::Manhattan,
        Heuristic::Hamming,
        Heuristic::LinearConflict,
        Heuristic::InversionDistance,
        Heuristic::Zero,
    ] {
        let first = heuristic.evaluate(&puzzle);
        let second = heuristic.evaluate(&puzzle);
        assert_eq!(first, second);
    }
}

#[test]
fn test_heuristic_selector_rejects_unset() {
    assert!(Heuristic::NotSet.get_heuristic().is_err());
    assert!(Heuristic::Manhattan.get_heuristic().is_ok());
}

/// Rendering a board and re-parsing it (with its size prepended) yields the
/// same board.
#[test]
fn test_render_parse_roundtrip() {
    let mut board = Puzzle::new_answer(4);
    board.move_blank(Move::Up).unwrap();
    board.move_blank(Move::Left).unwrap();
    let text = format!("4\n{}", board.render());
    let reparsed = Puzzle::from_text(&text.as_bytes().to_vec()).unwrap();
    assert_eq!(reparsed, board);
}

#[test]
fn test_from_text_with_comments() {
    let text = b"# a puzzle\n3 # size\n1 2 3\n8 0 4 # middle row\n7 6 5\n".to_vec();
    let puzzle = Puzzle::from_text(&text).unwrap();
    assert!(puzzle.is_final_state());
}

#[test]
fn test_from_text_malformed() {
    // Too few cells.
    let text = b"3 1 2 3 8 0 4 7 6".to_vec();
    assert_eq!(Puzzle::from_text(&text).unwrap_err(), PuzzleError::MalformedBoard);
    // A duplicate value.
    let text = b"2 0 1 1 2".to_vec();
    assert_eq!(Puzzle::from_text(&text).unwrap_err(), PuzzleError::MalformedBoard);
    // A value out of range.
    let text = b"2 0 1 2 9".to_vec();
    assert_eq!(Puzzle::from_text(&text).unwrap_err(), PuzzleError::MalformedBoard);
    // Not a number.
    let text = b"two 0 1 2 3".to_vec();
    assert_eq!(Puzzle::from_text(&text).unwrap_err(), PuzzleError::MalformedBoard);
    // Empty text.
    let text = b"".to_vec();
    assert_eq!(Puzzle::from_text(&text).unwrap_err(), PuzzleError::MalformedBoard);
}

#[test]
fn test_board_errors() {
    let mut puzzle = Puzzle::new_answer(2);
    assert_eq!(
        puzzle.get(Pos::new(2, 0)).unwrap_err(),
        PuzzleError::OutOfBounds
    );
    assert_eq!(
        puzzle.set(Pos::new(0, 0), 1).unwrap_err(),
        PuzzleError::DuplicateValue
    );
    assert_eq!(
        puzzle.set(Pos::new(0, 0), 9).unwrap_err(),
        PuzzleError::OutOfBounds
    );
    assert_eq!(
        puzzle.move_blank(Move::Down).unwrap_err(),
        PuzzleError::IllegalMove
    );
    assert_eq!(
        Puzzle::new_from_state(vec![vec![1, 2], vec![3, 4]]).unwrap_err(),
        PuzzleError::MalformedBoard
    );
}
