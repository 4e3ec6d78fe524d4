//! What can go wrong with a query.

use vstd::prelude::*;

verus! {

/// Why a query gives no route.
#[derive(Clone, Copy, PartialEq, Eq, Structural, Debug)]
pub enum PuzzleError {
    /// The text does not hold exactly nine digits.
    MalformedInput,
    /// No sequence of rotations takes the board to the goal.
    Unsolvable,
}

} // verus!
