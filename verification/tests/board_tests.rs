use n_puzzle::board::Puzzle;
use n_puzzle::moves::Move;
use n_puzzle::pos::Pos;

#[test]
fn test_new_answer() {
    let puzzle = Puzzle::new_answer(3);
    assert_eq!(puzzle.size, 3);
    assert_eq!(
        puzzle.state,
        vec![vec![1, 2, 3], vec![8, 0, 4], vec![7, 6, 5]]
    );
}

#[test]
fn test_check_state() {
    let mut puzzle = Puzzle::new_answer(3);
    assert!(puzzle.check_state());
    // Case where a value is duplicated
    puzzle.state[0][0] = 0;
    assert!(!puzzle.check_state());
    puzzle.state[0][0] = 1;
    // Case where the line length is not equal to the size
    puzzle.state.pop();
    puzzle.state.push(vec![6, 5]);
    assert!(!puzzle.check_state());
    puzzle.state.pop();
    puzzle.state.push(vec![7, 6, 5]);
    // Case where the column length is not equal to the size
    puzzle.state.push(vec![0; 3]);
    assert!(!puzzle.check_state());
    puzzle.state.pop();
    // Case where a value is greater than the size
    puzzle.state[0][0] = 9;
    assert!(!puzzle.check_state());
    puzzle.state[0][0] = 1;
    // Case where the blank position is not correct
    puzzle.blank_pos = Pos::new(0, 0);
    assert!(!puzzle.check_state());
}

#[test]
fn test_is_final_state() {
    let mut puzzle = Puzzle::new_answer(3);
    assert!(puzzle.is_final_state());
    puzzle.state[0][0] = 0;
    assert!(!puzzle.is_final_state());
}

#[test]
fn test_get() {
    let puzzle = Puzzle::new_answer(3);
    assert_eq!(puzzle.get(Pos::new(0, 0)).unwrap(), 1);
    assert_eq!(puzzle.get(Pos::new(1, 2)).unwrap(), 6);
    assert_eq!(puzzle.get(Pos::new(2, 2)).unwrap(), 5);
    assert!(puzzle.get(Pos::new(3, 0)).is_err());
    assert!(puzzle.get(Pos::new(0, 3)).is_err());
}

#[test]
fn test_unchecked_set() {
    let mut puzzle = Puzzle::new_answer(3);
    puzzle.unchecked_set(Pos::new(0, 0), 9).unwrap();
    assert_eq!(puzzle.state[0][0], 9);
    puzzle.unchecked_set(Pos::new(2, 2), 1).unwrap();
    assert_eq!(puzzle.state[2][2], 1);
    puzzle.unchecked_set(Pos::new(0, 2), 0).unwrap();
    assert_eq!(puzzle.state[2][0], 0);
    assert_eq!(puzzle.blank_pos, Pos::new(0, 2));
    assert!(puzzle.unchecked_set(Pos::new(3, 0), 2).is_err());
    assert!(puzzle.unchecked_set(Pos::new(0, 3), 3).is_err());
}

#[test]
fn test_set() {
    let mut puzzle = Puzzle {
        size: 3,
        state: vec![vec![0; 3]; 3],
        blank_pos: Pos::new(2, 2),
    };
    puzzle.set(Pos::new(0, 0), 1).unwrap();
    assert_eq!(puzzle.state[0][0], 1);
    puzzle.set(Pos::new(2, 2), 2).unwrap();
    assert_eq!(puzzle.state[2][2], 2);
    assert!(puzzle.set(Pos::new(0, 0), 2).is_err());
    assert!(puzzle.set(Pos::new(0, 0), 10).is_err());
    assert!(puzzle.set(Pos::new(0, 3), 3).is_err());
    assert!(puzzle.set(Pos::new(3, 0), 3).is_err());
}

#[test]
fn test_swap() {
    let mut puzzle = Puzzle::new_answer(3);
    puzzle.swap(Pos::new(0, 0), Pos::new(1, 1)).unwrap();
    assert_eq!(puzzle.state[0][0], 0);
    assert_eq!(puzzle.state[1][1], 1);
    assert_eq!(puzzle.blank_pos, Pos::new(0, 0));
    puzzle.swap(Pos::new(0, 0), Pos::new(2, 2)).unwrap();
    assert_eq!(puzzle.state[0][0], 5);
    assert_eq!(puzzle.state[2][2], 0);
    assert_eq!(puzzle.blank_pos, Pos::new(2, 2));
    assert!(puzzle.swap(Pos::new(0, 3), Pos::new(0, 0)).is_err());
    assert!(puzzle.swap(Pos::new(0, 0), Pos::new(3, 0)).is_err());
}

#[test]
fn test_move_blank() {
    let mut puzzle = Puzzle::new_answer(3);
    assert!(puzzle.move_blank(Move::Down).is_ok());
    assert!(puzzle.move_blank(Move::Down).is_err());
    assert!(puzzle.move_blank(Move::Right).is_ok());
    assert!(puzzle.move_blank(Move::Right).is_err());
    puzzle.move_blank(Move::Up).unwrap();
    assert_eq!(
        puzzle.state,
        vec![vec![1, 2, 3], vec![8, 6, 0], vec![7, 5, 4]]
    );
    puzzle.move_blank(Move::Up).unwrap();
    assert_eq!(
        puzzle.state,
        vec![vec![1, 2, 0], vec![8, 6, 3], vec![7, 5, 4]]
    );
    assert!(puzzle.move_blank(Move::Up).is_err());
    puzzle.move_blank(Move::Left).unwrap();
    assert_eq!(
        puzzle.state,
        vec![vec![1, 0, 2], vec![8, 6, 3], vec![7, 5, 4]]
    );
    puzzle.move_blank(Move::Left).unwrap();
    assert_eq!(
        puzzle.state,
        vec![vec![0, 1, 2], vec![8, 6, 3], vec![7, 5, 4]]
    );
    assert!(puzzle.move_blank(Move::Left).is_err());
}

#[test]
fn test_display() {
    let puzzle = Puzzle::new_answer(3);
    assert_eq!(puzzle.render(), "1 2 3\n8 0 4\n7 6 5\n");
}
