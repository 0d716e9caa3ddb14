//! The failure taxonomy of the crate: grid-detection failures,
//! color-classification failures, and the no-solution outcome of the
//! solver. All of them are ordinary result values; no library function
//! panics on them.

use vstd::prelude::*;

verus! {

/// Everything that can go wrong between a screenshot and a solved board.
#[derive(Debug, Clone, Copy, PartialEq, Eq, Structural)]
pub enum BoardError {
    /// Fewer grid lines than a minimal board needs were found on one axis.
    InsufficientLines { horizontal: usize, vertical: usize },
    /// The average gap between detected lines is zero on some axis.
    InvalidCellSize,
    /// The two axes disagree on the number of cells.
    NonSquareGrid { width: usize, height: usize },
    /// The detected geometry would place a sample point outside the image.
    GridOutsideImage,
    /// A sampled pixel is farther than the acceptance threshold from every
    /// reference color; carries the measured distance.
    UnrecognizedColor { distance: u32 },
    /// The backtracking search exhausted all placements.
    NoSolution,
}

} // verus!
