//! What the evaluator reports of itself, and the options of its input encoding.
use vstd::prelude::*;

verus! {

/// How the evaluator's input planes are laid out.
#[derive(Clone, Copy, Debug, PartialEq, Eq, Structural)]
pub enum InputFormat {
    Unknown,
    Classical112Plane,
    Castling112Plane,
    Canonical112Plane,
}

/// Whether the evaluator has a moves-left head, and which.
#[derive(Clone, Copy, Debug, PartialEq, Eq, Structural)]
pub enum MovesLeftFormat {
    NoMovesLeft,
    V1,
}

/// How empty history planes are filled.
#[derive(Clone, Copy, Debug, PartialEq, Eq, Structural)]
pub enum FillEmptyHistory {
    No,
    FenOnly,
    Always,
}

/// A symmetry applied to the board before encoding.
#[derive(Clone, Copy, Debug, PartialEq, Eq, Structural)]
pub enum BoardTransform {
    /// Horizontal mirror.
    Flip,
    /// Vertical mirror.
    Mirror,
    /// Diagonal transpose from a1 to h8.
    Transpose,
}

/// The capabilities that an evaluator declares before a search starts.
#[derive(Clone, Copy, Debug, PartialEq, Eq, Structural)]
pub struct NetworkCapabilities {
    pub input_format: InputFormat,
    pub moves_left_format: MovesLeftFormat,
}

impl NetworkCapabilities {
    pub fn new(input_format: InputFormat, moves_left_format: MovesLeftFormat) -> (r: NetworkCapabilities)
        ensures
            r.input_format == input_format,
            r.moves_left_format == moves_left_format,
    {
        NetworkCapabilities { input_format, moves_left_format }
    }

    /// Whether the evaluator gives a moves-left estimate.
    pub fn has_moves_left(&self) -> (r: bool)
        ensures
            r == !(self.moves_left_format is NoMovesLeft),
    {
        !matches!(self.moves_left_format, MovesLeftFormat::NoMovesLeft)
    }
}

} // verus!
