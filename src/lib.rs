//! Numeric policy for a throttled file remover: a byte-size value type and
//! the per-round chunk size of a rate-limited deletion.
use vstd::prelude::*;

pub mod binary64;
pub mod size;

pub use size::{Correction, Size, Unit};

verus! {

/// Removal-rate policy: how many bytes to delete per second, spread over a
/// number of rounds per second.
#[derive(Debug)]
#[non_exhaustive]
pub struct SlowRm {
    /// Rate of removal (in bytes per second)
    pub rate: usize,
    /// Number of chunk removals per second.
    ///
    /// A high value gives a smoother, more even removal but may add load on
    /// the drives.
    pub chunk_removal_per_second: usize,
}

/// Bytes to remove in one round: the whole rate when it is smaller than the
/// number of rounds (so that deletion never stalls at zero), else the rate
/// split evenly over the rounds, rounded down.
pub open spec fn chunk_size(rate: nat, rounds: nat) -> nat {
    if rate < rounds {
        rate
    } else {
        rate / rounds
    }
}

impl SlowRm {
    /// A configuration is usable when at least one round happens per second.
    pub open spec fn wf(&self) -> bool {
        self.chunk_removal_per_second > 0
    }

    /// Builds a configuration; a zero number of rounds per second is
    /// rejected.
    pub fn new(rate: usize, chunk_removal_per_second: usize) -> (r: Option<SlowRm>)
        ensures
            chunk_removal_per_second == 0 <==> r is None,
            r matches Some(s) ==> s.wf() && s.rate == rate && s.chunk_removal_per_second
                == chunk_removal_per_second,
    {
        if chunk_removal_per_second == 0 {
            None
        } else {
            Some(SlowRm { rate, chunk_removal_per_second })
        }
    }

    /// Determines how many bytes should be removed in a single round.
    pub fn max_size_per_chunk_removal(&self) -> (r: usize)
        requires
            self.wf(),
        ensures
            r == chunk_size(self.rate as nat, self.chunk_removal_per_second as nat),
            self.rate < self.chunk_removal_per_second ==> r == self.rate,
            self.rate >= self.chunk_removal_per_second ==> r == self.rate
                / self.chunk_removal_per_second,
            r <= self.rate,
    {
        if self.rate < self.chunk_removal_per_second {
            self.rate
        } else {
            self.rate / self.chunk_removal_per_second
        }
    }
}

} // verus!
