use vstd::prelude::*;

verus! {

/// Why a catalog, a flag or a question could not be produced.
#[derive(Debug, Clone, Copy, PartialEq, Eq, Structural)]
pub enum QuizError {
    /// The catalog file or a flag file does not exist.
    NotFound,
    /// The catalog is not a JSON object of strings.
    ParseError,
    /// A file could not be read.
    IoError,
    /// The catalog holds fewer countries than a question has options.
    InsufficientData,
}

} // verus!
