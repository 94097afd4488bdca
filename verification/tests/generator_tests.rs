use n_puzzle::board::Puzzle;

#[test]
fn test_generate_border() {
    let puzzle = Puzzle::generate(2).unwrap();
    assert!(puzzle.check_state());
}

#[test]
fn test_generate_normal() {
    let puzzle = Puzzle::generate(5).unwrap();
    let result = puzzle.check_state();
    assert!(result);
}

#[test]
fn test_generate_invalid() {
    let puzzle = Puzzle::generate(1);
    assert!(puzzle.is_err());
}

/// A generated board holds each value exactly once: the shuffle loses and
/// invents nothing.
#[test]
fn test_generate_holds_all_values() {
    let puzzle = Puzzle::generate(3).unwrap();
    let mut seen = vec![false; 9];
    for row in &puzzle.state {
        for v in row {
            assert!(*v < 9);
            assert!(!seen[*v]);
            seen[*v] = true;
        }
    }
    assert!(seen.iter().all(|b| *b));
}

/// A solvable-board generator only hands out solvable boards.
#[test]
fn test_generate_solvable_is_solvable() {
    for _ in 0..5 {
        let puzzle = Puzzle::generate_solvable(3).unwrap();
        assert!(puzzle.check_state());
        assert!(puzzle.is_solvable().unwrap());
    }
}

/// About half of all random boards are solvable.
#[test]
fn test_solvable_fraction_near_half() {
    let samples = 400;
    let mut solvable = 0;
    for _ in 0..samples {
        let puzzle = Puzzle::generate(4).unwrap();
        if puzzle.is_solvable().unwrap() {
            solvable += 1;
        }
    }
    let fraction = solvable as f64 / samples as f64;
    assert!(fraction > 0.35 && fraction < 0.65);
}
