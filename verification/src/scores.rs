//! The score each recognizable shape is worth.

use crate::shapes::Shape;
use vstd::prelude::*;

verus! {

/// The shape-to-score table.
pub struct Scores;

/// The score of a shape.
pub open spec fn score_of(shape: Shape) -> int {
    match shape {
        Shape::FIVE => 10000000,
        Shape::BLOCK_FIVE => 10000000,
        Shape::OPEN_FOUR => 500000,
        Shape::SEMIOPEN_FOUR => 200000,
        Shape::CLOSED_FOUR => 50000,
        Shape::FOUR_FOUR => 700000,
        Shape::FOUR_THREE => 600000,
        Shape::OPEN_THREE => 50000,
        Shape::SEMIOPEN_THREE => 15000,
        Shape::CLOSED_THREE => 2000,
        Shape::THREE_THREE => 300000,
        Shape::SPLIT_THREE => 40000,
        Shape::OPEN_TWO => 1000,
        Shape::SEMIOPEN_TWO => 300,
        Shape::CLOSED_TWO => 50,
        Shape::TWO_TWO => 5000,
        Shape::OPEN_ONE => 10,
        Shape::SEMIOPEN_ONE => 3,
        Shape::CLOSED_ONE => 1,
        Shape::DOUBLE_THREAT => 500000,
        Shape::CROSS_THREAT => 100000,
        Shape::NONE => 0,
    }
}

impl Scores {
    /// The score of `shape`.
    pub fn get(shape: Shape) -> (r: i64)
        ensures
            r as int == score_of(shape),
    {
        match shape {
            Shape::FIVE => 10000000,
            Shape::BLOCK_FIVE => 10000000,
            Shape::OPEN_FOUR => 500000,
            Shape::SEMIOPEN_FOUR => 200000,
            Shape::CLOSED_FOUR => 50000,
            Shape::FOUR_FOUR => 700000,
            Shape::FOUR_THREE => 600000,
            Shape::OPEN_THREE => 50000,
            Shape::SEMIOPEN_THREE => 15000,
            Shape::CLOSED_THREE => 2000,
            Shape::THREE_THREE => 300000,
            Shape::SPLIT_THREE => 40000,
            Shape::OPEN_TWO => 1000,
            Shape::SEMIOPEN_TWO => 300,
            Shape::CLOSED_TWO => 50,
            Shape::TWO_TWO => 5000,
            Shape::OPEN_ONE => 10,
            Shape::SEMIOPEN_ONE => 3,
            Shape::CLOSED_ONE => 1,
            Shape::DOUBLE_THREAT => 500000,
            Shape::CROSS_THREAT => 100000,
            Shape::NONE => 0,
        }
    }
}

} // verus!
