//! The recognizable line shapes, from a completed five down to a lone
//! stone, each with open, half-open and closed variants where they differ.

use vstd::prelude::*;

verus! {

/// A line configuration a cell can take part in.
#[allow(non_camel_case_types)]
#[derive(Debug, Clone, Copy, PartialEq, Eq, Structural)]
pub enum Shape {
    FIVE,
    BLOCK_FIVE,
    OPEN_FOUR,
    SEMIOPEN_FOUR,
    CLOSED_FOUR,
    FOUR_FOUR,
    FOUR_THREE,
    OPEN_THREE,
    SEMIOPEN_THREE,
    CLOSED_THREE,
    THREE_THREE,
    SPLIT_THREE,
    OPEN_TWO,
    SEMIOPEN_TWO,
    CLOSED_TWO,
    TWO_TWO,
    OPEN_ONE,
    SEMIOPEN_ONE,
    CLOSED_ONE,
    DOUBLE_THREAT,
    CROSS_THREAT,
    NONE,
}

} // verus!
