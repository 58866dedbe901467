//! Dissimilarity scores and the threshold test.
//!
//! A score is carried as the bit pattern of an IEEE 754 binary64 number, so
//! that it passes through the library unchanged.  The order of such numbers
//! is the order of their sign-magnitude integers, with both zeros equal and
//! with NaN comparable to nothing.

use vstd::prelude::*;

verus! {

/// The sign bit of a binary64 pattern.
pub const SIGN_BIT: u64 = 0x8000_0000_0000_0000;

/// The pattern of positive infinity: every larger magnitude is a NaN.
pub const INFINITY_BITS: u64 = 0x7ff0_0000_0000_0000;

/// The pattern of the threshold that applies when none is configured: the
/// binary64 number nearest to one tenth.
pub const DEFAULT_THRESHOLD_BITS: u64 = 0x3fb9_9999_9999_999a;

/// The pattern without its sign bit.
pub open spec fn magnitude(bits: u64) -> int {
    if bits >= SIGN_BIT {
        bits - SIGN_BIT
    } else {
        bits as int
    }
}

/// Whether the pattern encodes a NaN.
pub open spec fn is_nan(bits: u64) -> bool {
    magnitude(bits) > INFINITY_BITS
}

/// Where the number stands on the line of integers: numbers that are not NaN
/// compare as their positions do.
pub open spec fn position(bits: u64) -> int {
    if bits >= SIGN_BIT {
        -magnitude(bits)
    } else {
        magnitude(bits)
    }
}

/// `a <= b` on the numbers that the two patterns encode.
pub open spec fn at_most(a: u64, b: u64) -> bool {
    !is_nan(a) && !is_nan(b) && position(a) <= position(b)
}

/// A dissimilarity value; lower means more similar.
#[derive(Clone, Copy, Debug, PartialEq, Eq, Structural)]
pub struct Score {
    pub bits: u64,
}

impl Score {
    /// The score with the given binary64 pattern.
    pub fn from_bits(bits: u64) -> (score: Score)
        ensures
            score.bits == bits,
    {
        Score { bits }
    }

    /// The binary64 pattern of the score.
    pub fn to_bits(&self) -> (bits: u64)
        ensures
            bits == self.bits,
    {
        self.bits
    }

    /// The threshold that applies when none is configured.
    pub fn default_threshold() -> (score: Score)
        ensures
            score.bits == DEFAULT_THRESHOLD_BITS,
    {
        Score { bits: DEFAULT_THRESHOLD_BITS }
    }

    /// Whether the score is at or below `threshold`.
    pub open spec fn within(&self, threshold: Score) -> bool {
        at_most(self.bits, threshold.bits)
    }

    /// Tells whether the score is at or below `threshold`, as the numbers
    /// compare: a NaN on either side is never within.
    pub fn is_within(&self, threshold: Score) -> (within: bool)
        ensures
            within == self.within(threshold),
    {
        let negative: bool = self.bits >= SIGN_BIT;
        let size: u64 = if negative { self.bits - SIGN_BIT } else { self.bits };
        let limit_negative: bool = threshold.bits >= SIGN_BIT;
        let limit: u64 = if limit_negative { threshold.bits - SIGN_BIT } else { threshold.bits };
        if size > INFINITY_BITS || limit > INFINITY_BITS {
            false
        } else if negative {
            !limit_negative || size >= limit
        } else if limit_negative {
            size == 0 && limit == 0
        } else {
            size <= limit
        }
    }
}

/// A score equal to the threshold is within it, and the next larger number is
/// not: the boundary belongs to the reported side.
pub proof fn lemma_threshold_boundary(threshold: Score)
    requires
        !is_nan(threshold.bits),
    ensures
        threshold.within(threshold),
        forall|score: Score| position(score.bits) > position(threshold.bits) ==> !score.within(threshold),
        forall|score: Score|
            !is_nan(score.bits) && position(score.bits) <= position(threshold.bits) ==> score.within(
                threshold,
            ),
{
}

} // verus!
