use n_puzzle::errors::PuzzleError;
use n_puzzle::heuristic::Heuristic;
use n_puzzle::search::Algorithm;
use n_puzzle::settings::{parse_args, PuzzleSettings, Settings};

#[test]
fn test_size_normal() {
    let args: Vec<String> = vec!["target/debug/n-puzzle".into(), "2".into()];
    let settings = parse_args(args).unwrap().unwrap();
    let answer_settings = Settings::new(
        PuzzleSettings::Size(2),
        Some(Algorithm::AStar),
        Heuristic::Manhattan,
        None,
        false,
    );
    assert_eq!(settings, answer_settings);
}

#[test]
fn test_size_one() {
    let args: Vec<String> = vec!["target/debug/n-puzzle".into(), "1".into()];
    let settings = parse_args(args);
    assert!(settings.is_err());
}

#[test]
fn test_size_zero() {
    let args: Vec<String> = vec!["target/debug/n-puzzle".into(), "0".into()];
    let settings = parse_args(args);
    assert!(settings.is_err());
}

#[test]
fn test_text_path_valid() {
    let args: Vec<String> = vec!["target/debug/n-puzzle".into(), "test.txt".into()];
    let settings = parse_args(args).unwrap().unwrap();
    let answer_settings = Settings::new(
        PuzzleSettings::TextPath("test.txt".into()),
        Some(Algorithm::AStar),
        Heuristic::Manhattan,
        None,
        false,
    );
    assert_eq!(settings, answer_settings);
}

#[test]
fn test_text_path_invalid() {
    let args: Vec<String> = vec!["target/debug/n-puzzle".into(), "test.py".into()];
    let settings = parse_args(args);
    assert!(settings.is_err());
}

#[test]
fn test_algorithm_astar() {
    let args: Vec<String> = vec![
        "target/debug/n-puzzle".into(),
        "3".into(),
        "-a".into(),
        "astar".into(),
    ];
    let settings = parse_args(args).unwrap().unwrap();
    let answer_settings = Settings::new(
        PuzzleSettings::Size(3),
        Some(Algorithm::AStar),
        Heuristic::Manhattan,
        None,
        false,
    );
    assert_eq!(settings, answer_settings);
}

#[test]
fn test_algorithm_uniform_cost() {
    let args: Vec<String> = vec![
        "target/debug/n-puzzle".into(),
        "3".into(),
        "-a".into(),
        "uniform_cost".into(),
    ];
    let settings = parse_args(args).unwrap().unwrap();
    let answer_settings = Settings::new(
        PuzzleSettings::Size(3),
        Some(Algorithm::UniformCost),
        Heuristic::NotSet,
        None,
        false,
    );
    assert_eq!(settings, answer_settings);
}

#[test]
fn test_algorithm_greedy() {
    let args: Vec<String> = vec![
        "target/debug/n-puzzle".into(),
        "3".into(),
        "-a".into(),
        "greedy".into(),
    ];
    let settings = parse_args(args).unwrap().unwrap();
    let answer_settings = Settings::new(
        PuzzleSettings::Size(3),
        Some(Algorithm::Greedy),
        Heuristic::Manhattan,
        None,
        false,
    );
    assert_eq!(settings, answer_settings);
}

#[test]
fn test_algorithm_invalid() {
    let args: Vec<String> = vec![
        "target/debug/n-puzzle".into(),
        "3".into(),
        "-a".into(),
        "invalid".into(),
    ];
    let settings = parse_args(args);
    assert!(settings.is_err());
}

#[test]
fn test_heuristic_manhattan() {
    let args: Vec<String> = vec![
        "target/debug/n-puzzle".into(),
        "3".into(),
        "-h".into(),
        "manhattan".into(),
    ];
    let settings = parse_args(args).unwrap().unwrap();
    let answer_settings = Settings::new(
        PuzzleSettings::Size(3),
        Some(Algorithm::AStar),
        Heuristic::Manhattan,
        None,
        false,
    );
    assert_eq!(settings, answer_settings);
}

#[test]
fn test_heuristic_invalid() {
    let args: Vec<String> = vec![
        "target/debug/n-puzzle".into(),
        "3".into(),
        "-h".into(),
        "invalid".into(),
    ];
    let settings = parse_args(args);
    assert!(settings.is_err());
}

#[test]
fn test_astar_with_heuristic() {
    let args: Vec<String> = vec![
        "target/debug/n-puzzle".into(),
        "3".into(),
        "-a".into(),
        "astar".into(),
        "-h".into(),
        "manhattan".into(),
    ];
    let settings = parse_args(args).unwrap().unwrap();
    let answer_settings = Settings::new(
        PuzzleSettings::Size(3),
        Some(Algorithm::AStar),
        Heuristic::Manhattan,
        None,
        false,
    );
    assert_eq!(settings, answer_settings);
}

#[test]
fn test_greedy_with_heuristic() {
    let args: Vec<String> = vec![
        "target/debug/n-puzzle".into(),
        "3".into(),
        "-a".into(),
        "greedy".into(),
        "-h".into(),
        "manhattan".into(),
    ];
    let settings = parse_args(args).unwrap().unwrap();
    let answer_settings = Settings::new(
        PuzzleSettings::Size(3),
        Some(Algorithm::Greedy),
        Heuristic::Manhattan,
        None,
        false,
    );
    assert_eq!(settings, answer_settings);
}

#[test]
fn test_uniform_cost_with_heuristic() {
    let args: Vec<String> = vec![
        "target/debug/n-puzzle".into(),
        "3".into(),
        "-a".into(),
        "uniform_cost".into(),
        "-h".into(),
        "manhattan".into(),
    ];
    let settings = parse_args(args);
    assert!(settings.is_err());
}

#[test]
fn test_complex_valid_middle() {
    let args: Vec<String> = vec![
        "target/debug/n-puzzle".into(),
        "-a".into(),
        "astar".into(),
        "test.txt".into(),
        "-h".into(),
        "manhattan".into(),
    ];
    let settings = parse_args(args).unwrap().unwrap();
    let answer_settings = Settings::new(
        PuzzleSettings::TextPath("test.txt".into()),
        Some(Algorithm::AStar),
        Heuristic::Manhattan,
        None,
        false,
    );
    assert_eq!(settings, answer_settings);
}

#[test]
fn test_complex_valid_end() {
    let args: Vec<String> = vec![
        "target/debug/n-puzzle".into(),
        "-a".into(),
        "astar".into(),
        "-h".into(),
        "manhattan".into(),
        "test.txt".into(),
    ];
    let settings = parse_args(args).unwrap().unwrap();
    let answer_settings = Settings::new(
        PuzzleSettings::TextPath("test.txt".into()),
        Some(Algorithm::AStar),
        Heuristic::Manhattan,
        None,
        false,
    );
    assert_eq!(settings, answer_settings);
}

#[test]
fn test_complex_invalid() {
    let args: Vec<String> = vec![
        "target/debug/n-puzzle".into(),
        "-a".into(),
        "-h".into(),
        "manhattan".into(),
        "test.txt".into(),
    ];
    let settings = parse_args(args);
    assert!(settings.is_err());
}

#[test]
fn test_verbose() {
    let args: Vec<String> = vec![
        "target/debug/n-puzzle".into(),
        "-a".into(),
        "astar".into(),
        "-h".into(),
        "manhattan".into(),
        "test.txt".into(),
        "--verbose".into(),
    ];
    let settings = parse_args(args).unwrap().unwrap();
    let answer_settings = Settings::new(
        PuzzleSettings::TextPath("test.txt".into()),
        Some(Algorithm::AStar),
        Heuristic::Manhattan,
        None,
        true,
    );
    assert_eq!(settings, answer_settings);
}

/// A heuristic chosen together with uniform cost is refused with exactly
/// `InvalidOption`.
#[test]
fn test_uniform_cost_with_heuristic_error_kind() {
    let args: Vec<String> = vec![
        "program".into(),
        "3".into(),
        "-a".into(),
        "uniform_cost".into(),
        "-h".into(),
        "manhattan".into(),
    ];
    assert_eq!(parse_args(args).unwrap_err(), PuzzleError::InvalidOption);
}
