//! Eviction candidates of the working-set clock and their ranking.

use core::cmp::Ordering;
use vstd::prelude::*;
use vstd::std_specs::cmp::PartialEqSpecImpl;
use vstd::std_specs::cmp::PartialOrdSpecImpl;

verus! {

/// How eligible for eviction an unreferenced page is.
///
/// In increasing priority: no page seen yet, a dirty page inside the working
/// set, a clean page inside the working set, a dirty page older than the
/// threshold, a clean page older than the threshold.
#[derive(Debug, Clone, Copy, PartialEq, Eq, Structural)]
pub enum PageStatus {
    Nothing,
    Dirty,
    Clean,
    OldAndDirty,
    OldAndClean,
}

impl PageStatus {
    /// The eviction priority as a number: a higher rank is evicted first.
    pub open spec fn spec_rank(self) -> u8 {
        match self {
            PageStatus::Nothing => 0u8,
            PageStatus::Dirty => 1u8,
            PageStatus::Clean => 2u8,
            PageStatus::OldAndDirty => 3u8,
            PageStatus::OldAndClean => 4u8,
        }
    }

    /// The eviction priority as a number: a higher rank is evicted first.
    #[verifier::when_used_as_spec(spec_rank)]
    pub fn rank(self) -> (r: u8)
        ensures
            r == self.spec_rank(),
    {
        match self {
            PageStatus::Nothing => 0u8,
            PageStatus::Dirty => 1u8,
            PageStatus::Clean => 2u8,
            PageStatus::OldAndDirty => 3u8,
            PageStatus::OldAndClean => 4u8,
        }
    }
}

/// A frame that may be evicted, with the status it was seen in.
///
/// Candidates are compared by status alone: the frame index plays no part.
#[derive(Debug, Clone, Copy)]
pub struct Candidate {
    pub index: usize,
    pub status: PageStatus,
}

impl Candidate {
    pub fn new(index: usize, status: PageStatus) -> (c: Candidate)
        ensures
            c.index == index,
            c.status == status,
    {
        Candidate { index, status }
    }

    /// Whether `self` is strictly preferred for eviction over `other`.
    pub open spec fn spec_outranks(&self, other: &Candidate) -> bool {
        self.status.spec_rank() > other.status.spec_rank()
    }

    /// Whether `self` is strictly preferred for eviction over `other`.
    #[verifier::when_used_as_spec(spec_outranks)]
    pub fn outranks(&self, other: &Candidate) -> (r: bool)
        ensures
            r == self.spec_outranks(other),
    {
        self.status.rank() > other.status.rank()
    }
}

impl PartialEq for Candidate {
    fn eq(&self, other: &Candidate) -> (r: bool) {
        self.status.rank() == other.status.rank()
    }
}

impl PartialEqSpecImpl for Candidate {
    open spec fn obeys_eq_spec() -> bool {
        true
    }

    open spec fn eq_spec(&self, other: &Candidate) -> bool {
        self.status.spec_rank() == other.status.spec_rank()
    }
}

impl PartialOrd for Candidate {
    fn partial_cmp(&self, other: &Candidate) -> (r: Option<Ordering>) {
        let a: u8 = self.status.rank();
        let b: u8 = other.status.rank();
        if a < b {
            Some(Ordering::Less)
        } else if a == b {
            Some(Ordering::Equal)
        } else {
            Some(Ordering::Greater)
        }
    }
}

impl PartialOrdSpecImpl for Candidate {
    open spec fn obeys_partial_cmp_spec() -> bool {
        true
    }

    open spec fn partial_cmp_spec(&self, other: &Candidate) -> Option<Ordering> {
        if self.status.spec_rank() < other.status.spec_rank() {
            Some(Ordering::Less)
        } else if self.status.spec_rank() == other.status.spec_rank() {
            Some(Ordering::Equal)
        } else {
            Some(Ordering::Greater)
        }
    }
}

} // verus!
