//! Half-open intervals of positions within normalized text.

use vstd::prelude::*;

verus! {

/// A half-open interval `[start, end)` of positions within normalized text.
/// Positions count encoding units of the normalized form; a resolved range
/// never has `end < start`, but the fields are public and a caller may build
/// any pair, so `len` saturates.
#[derive(Debug, Clone, Copy, PartialEq, Eq, Structural)]
pub struct Range {
    pub start: usize,
    pub end: usize,
}

impl Range {
    /// Mathematical length of the interval: zero when the pair is inverted.
    pub open spec fn spec_len(self) -> int {
        if self.start <= self.end {
            self.end - self.start
        } else {
            0
        }
    }

    /// Number of positions covered, saturating to zero for an inverted pair.
    pub fn len(&self) -> (r: usize)
        ensures
            r == self.spec_len(),
    {
        if self.start <= self.end {
            self.end - self.start
        } else {
            0
        }
    }

    /// True exactly when the interval covers no position.
    pub fn is_empty(&self) -> (r: bool)
        ensures
            r == (self.spec_len() == 0),
    {
        self.len() == 0
    }
}

} // verus!
