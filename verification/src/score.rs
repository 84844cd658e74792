//! The estimate of how promising a goal is.

use vstd::prelude::*;

verus! {

/// A score: a finite number that is not negative, kept as the bit pattern
/// of a single-precision number. Of two scores the one with the larger bit
/// pattern is the larger number, so scores are ordered by their bits.
#[derive(Clone, Copy, Debug, PartialEq, Eq, Structural)]
pub struct Score(pub u32);

/// The bit pattern above which a pattern stands for no finite number.
pub const LIMIT: u32 = 0x7f80_0000;

impl Default for Score {
    fn default() -> (score: Self)
        ensures
            score == Score(0),
    {
        Score(0)
    }
}

impl Score {
    /// Whether the bits stand for a finite number that is not negative.
    pub open spec fn wf(self) -> bool {
        self.0 < LIMIT
    }

    /// The score with these bits, if they stand for a finite number that is
    /// not negative.
    pub fn new(bits: u32) -> (score: Option<Score>)
        ensures
            score == if bits < LIMIT {
                Some(Score(bits))
            } else {
                None
            },
    {
        if bits < LIMIT {
            Some(Score(bits))
        } else {
            None
        }
    }

    /// The score zero.
    pub fn zero() -> (score: Score)
        ensures
            score == Score(0),
            score.wf(),
    {
        Score(0)
    }

    /// The score one.
    pub fn one() -> (score: Score)
        ensures
            score == Score(0x3f80_0000),
            score.wf(),
    {
        Score(0x3f80_0000)
    }

    /// The score one half.
    pub fn half() -> (score: Score)
        ensures
            score == Score(0x3f00_0000),
            score.wf(),
    {
        Score(0x3f00_0000)
    }

    /// The bit pattern of the score.
    pub fn bits(self) -> (bits: u32)
        ensures
            bits == self.0,
    {
        self.0
    }

    /// Whether this score is smaller than `other`.
    pub fn less(self, other: Score) -> (smaller: bool)
        ensures
            smaller == (self.0 < other.0),
    {
        self.0 < other.0
    }
}

} // verus!
