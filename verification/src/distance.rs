//! Distance metrics and the order of scores.
//!
//! The library carries every score as the bit pattern of an IEEE-754
//! single-precision number and never computes with it. What it needs of a
//! score is its place among other scores; this module gives each bit
//! pattern a rank that grows with the number it stands for, the same for
//! the two patterns of zero.

use vstd::prelude::*;

verus! {

/// Distance metric for similarity search.
#[derive(Debug, Clone, Copy, PartialEq, Eq, Structural)]
pub enum Distance {
    /// Dot product; higher means more similar.
    DotProduct,
    /// Cosine similarity; higher means more similar.
    Cosine,
    /// Euclidean distance; lower means more similar.
    Euclidean,
}

impl Distance {
    /// Whether a higher score means a closer match.
    pub fn higher_is_better(&self) -> (r: bool)
        ensures
            r == (*self != Distance::Euclidean),
    {
        match self {
            Distance::DotProduct => true,
            Distance::Cosine => true,
            Distance::Euclidean => false,
        }
    }
}

/// The rank of a single-precision bit pattern: patterns with the sign bit
/// set are turned over, the others are lifted above them. A larger number
/// has a larger rank, and the two zeros, which are equal as numbers, have
/// the same rank.
pub open spec fn score_rank(bits: u32) -> u32 {
    if bits == 0x8000_0000u32 {
        0x8000_0000u32
    } else if bits & 0x8000_0000u32 != 0 {
        !bits
    } else {
        bits | 0x8000_0000u32
    }
}

/// The bit pattern of the number with the opposite sign.
pub open spec fn negated(bits: u32) -> u32 {
    bits ^ 0x8000_0000u32
}

/// The rank of a score given by its bit pattern.
pub fn score_key(bits: u32) -> (r: u32)
    ensures
        r == score_rank(bits),
{
    if bits == 0x8000_0000u32 {
        0x8000_0000u32
    } else if bits & 0x8000_0000u32 != 0 {
        !bits
    } else {
        bits | 0x8000_0000u32
    }
}

/// The bit pattern of the score with the opposite sign.
pub fn negate(bits: u32) -> (r: u32)
    ensures
        r == negated(bits),
{
    bits ^ 0x8000_0000u32
}

} // verus!
