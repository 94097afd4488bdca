use vstd::prelude::*;

verus! {

/// The failure kinds of the puzzle library.  Errors are propagated upward and
/// never recovered from within the solver itself.
#[derive(Debug, Clone, Copy, PartialEq, Eq, Structural)]
pub enum PuzzleError {
    /// A cell access lay outside the board.
    OutOfBounds,
    /// A checked `set` would have introduced a value twice.
    DuplicateValue,
    /// `move_blank` was asked to push the blank across the border.
    IllegalMove,
    /// A board description violated the board invariants.
    MalformedBoard,
    /// A heuristic was requested from the `None` tag.
    HeuristicNotSet,
    /// The frontier ran dry, or greedy descent reached a local minimum.
    NoSolution,
    /// An expired budget: the configured wall clock, or the search's bound
    /// on expansion steps.
    Timeout,
    /// A disallowed combination of command-line options.
    InvalidOption,
}

impl PuzzleError {
    /// The characters of the error's description.
    pub open spec fn message_chars(self) -> Seq<char> {
        match self {
            PuzzleError::OutOfBounds => "Index out of bounds"@,
            PuzzleError::DuplicateValue => "Value already exists"@,
            PuzzleError::IllegalMove => "Cannot move in that direction"@,
            PuzzleError::MalformedBoard => "Invalid puzzle format"@,
            PuzzleError::HeuristicNotSet => "Heuristic not set"@,
            PuzzleError::NoSolution => "No solution"@,
            PuzzleError::Timeout => "Timeout"@,
            PuzzleError::InvalidOption => "Invalid option"@,
        }
    }

    /// A human-readable description, mirroring the messages the solver
    /// surfaces on the standard error stream.
    pub fn message(&self) -> (r: &'static str)
        ensures
            r@ == self.message_chars(),
    {
        match self {
            PuzzleError::OutOfBounds => "Index out of bounds",
            PuzzleError::DuplicateValue => "Value already exists",
            PuzzleError::IllegalMove => "Cannot move in that direction",
            PuzzleError::MalformedBoard => "Invalid puzzle format",
            PuzzleError::HeuristicNotSet => "Heuristic not set",
            PuzzleError::NoSolution => "No solution",
            PuzzleError::Timeout => "Timeout",
            PuzzleError::InvalidOption => "Invalid option",
        }
    }
}

} // verus!
