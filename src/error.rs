//! Why a generation run can fail.

use vstd::prelude::*;
use crate::direction::Direction;

verus! {

/// The ways in which building or running a generator fails.
#[derive(PartialEq, Eq, Structural, Clone, Copy, Debug)]
pub enum GenerationError {
    /// The training grid holds no window free of the empty tile.
    MalformedTrainingData,
    /// Narrowing cell `(x, y)` from its neighbour in `direction` left it no pattern.
    Contradiction { x: usize, y: usize, direction: Direction },
}

impl GenerationError {
    /// A one-line account of the failure.
    pub fn message(&self) -> (r: String)
        ensures
            r@ == (match self {
                GenerationError::MalformedTrainingData => "generation failed: the training grid holds no complete pattern"@,
                GenerationError::Contradiction { .. } => "generation failed: a cell was left with no possible pattern"@,
            }),
    {
        match self {
            GenerationError::MalformedTrainingData => String::from_str(
                "generation failed: the training grid holds no complete pattern",
            ),
            GenerationError::Contradiction { .. } => String::from_str(
                "generation failed: a cell was left with no possible pattern",
            ),
        }
    }
}

} // verus!
