pub mod admissible;
pub mod board;
pub mod closed_set;
pub mod errors;
pub mod generator;
pub mod goal;
pub mod heuristic;
pub mod inversion;
pub mod moves;
pub mod numfmt;
pub mod open_set;
pub mod output;
pub mod parse;
pub mod pos;
pub mod search;
pub mod settings;
pub mod solvable;
pub mod spiral;

pub use board::Puzzle;
pub use errors::PuzzleError;
pub use heuristic::Heuristic;
pub use moves::Move;
pub use pos::Pos;
pub use search::Algorithm;
pub use settings::PuzzleSettings;
